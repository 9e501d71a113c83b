//! Running one step: what is handed to the shell, and what is reported.

use vstd::prelude::*;
use crate::outside;
use crate::output;
use crate::output::StatRow;
use crate::paths;
use crate::paths::Style;
use crate::protocol;
use crate::protocol::BatchError;
use crate::protocol::ErrorModel;
use crate::protocol::ResultModel;
use crate::protocol::Step;
use crate::protocol::StepModel;
use crate::protocol::StepResult;
use crate::shell;
use crate::shell_laws;
use crate::text;
use crate::validation;

verus! {

// ---------- names and limits ----------

/// The id under which a step is reported: its own, or the first characters
/// of its command.
pub open spec fn label_of(s: StepModel) -> Seq<char> {
    match s.id {
        Some(id) => id,
        None => if s.cmd.len() <= 24 {
            s.cmd
        } else {
            s.cmd.take(24)
        },
    }
}

/// The id under which a step is reported.
pub fn label(step: &Step) -> (r: String)
    ensures
        r@ == label_of(step@),
{
    match &step.id {
        Some(id) => id.clone(),
        None => {
            let cs = text::chars_of(step.cmd.as_str());
            if cs.len() <= 24 {
                step.cmd.clone()
            } else {
                let front = vstd::slice::slice_subrange(cs.as_slice(), 0, 24);
                assert(front@ =~= cs@.take(24));
                text::string_of(front)
            }
        },
    }
}

/// How long a step may run: what it says, or what the batch says.
pub open spec fn timeout_of(s: StepModel, default_ms: u64) -> u64 {
    match s.timeout_ms {
        Some(t) => t,
        None => default_ms,
    }
}

// ---------- the working directory ----------

/// The directory that a step asks for: its `cwd`, or that of a `cd` prefix.
pub open spec fn asked_directory(s: StepModel) -> Option<Seq<char>> {
    if s.cwd is Some {
        s.cwd
    } else {
        shell::cd_split(s.cmd).0
    }
}

/// The program text: the command, without the `cd` prefix that gave the
/// directory.
pub open spec fn script_of(s: StepModel) -> Seq<char> {
    if s.cwd is Some {
        s.cmd
    } else {
        shell::cd_split(s.cmd).1
    }
}

/// Why a directory is refused, where it is written as `quoted`.
pub open spec fn traversal_text(quoted: Seq<char>) -> Seq<char> {
    "cwd "@ + quoted + " contains '..' (path traversal rejected)"@
}

/// The directory that a step runs in, for a batch called in `base`. A path
/// with a component `..` is refused.
pub open spec fn directory_of(cwd: Option<Seq<char>>, base: Seq<char>, style: Style) -> Result<
    Seq<char>,
    Seq<char>,
> {
    match cwd {
        None => Ok(base),
        Some(p) => if paths::has_parent(p, style) {
            Err(traversal_text(outside::debug_text(p)))
        } else {
            Ok(paths::path_from(base, p, style))
        },
    }
}

/// Why a directory is refused, where it is written as `quoted`.
pub fn traversal_message(quoted: &str) -> (r: String)
    ensures
        r@ == traversal_text(quoted@),
{
    let mut out = "cwd ".to_owned();
    out.append(quoted);
    out.append(" contains '..' (path traversal rejected)");
    out
}

/// The directory that a step runs in, for a batch called in `base`.
pub fn resolve_cwd(cwd: &Option<String>, base: &str, style: Style) -> (r: Result<String, String>)
    ensures
        match r {
            Ok(d) => directory_of(text::optional(*cwd), base@, style) == Ok::<Seq<char>, Seq<char>>(
                d@,
            ),
            Err(e) => directory_of(text::optional(*cwd), base@, style) == Err::<
                Seq<char>,
                Seq<char>,
            >(e@),
        },
{
    match cwd {
        None => Ok(base.to_owned()),
        Some(p) => {
            if paths::text_climbs(p.as_str(), style) {
                let quoted = outside::debug_quote(p.as_str());
                return Err(traversal_message(quoted.as_str()));
            }
            Ok(paths::join(base, p.as_str(), style))
        },
    }
}

// ---------- the environment ----------

/// `c` as a capital, where it is one of the letters from a to z.
pub open spec fn capital(c: char) -> char {
    if 'a' <= c && c <= 'z' {
        (c as int - 'a' as int + 'A' as int) as char
    } else {
        c
    }
}

/// Two names name one variable. On Windows the case of the letters from a to z
/// makes no difference.
pub open spec fn same_name(a: Seq<char>, b: Seq<char>, style: Style) -> bool {
    match style {
        Style::Unix => a == b,
        Style::Windows => a.map_values(|c: char| capital(c)) == b.map_values(|c: char| capital(c)),
    }
}

/// The value of the first variable of the given name.
pub open spec fn lookup(
    env: Seq<(Seq<char>, Seq<char>)>,
    name: Seq<char>,
    style: Style,
) -> Option<Seq<char>>
    decreases env.len(),
{
    if env.len() == 0 {
        None
    } else if same_name(env[0].0, name, style) {
        Some(env[0].1)
    } else {
        lookup(env.drop_first(), name, style)
    }
}

/// The variable as the parent has it, or with a default value.
pub open spec fn kept(
    parent: Seq<(Seq<char>, Seq<char>)>,
    name: Seq<char>,
    default: Seq<char>,
    style: Style,
) -> (Seq<char>, Seq<char>) {
    (
        name,
        match lookup(parent, name, style) {
            Some(v) => v,
            None => default,
        },
    )
}

/// The variable as the parent has it, if it has it.
pub open spec fn passed(
    parent: Seq<(Seq<char>, Seq<char>)>,
    name: Seq<char>,
    style: Style,
) -> Seq<(Seq<char>, Seq<char>)> {
    match lookup(parent, name, style) {
        Some(v) => seq![(name, v)],
        None => Seq::empty(),
    }
}

/// What every step gets: a search path, a home, the mark of this program, and
/// what the parent has of a few harmless variables.
pub open spec fn base_environment(
    parent: Seq<(Seq<char>, Seq<char>)>,
    style: Style,
) -> Seq<(Seq<char>, Seq<char>)> {
    seq![
        kept(parent, "PATH"@, "/usr/bin:/bin"@, style),
        kept(parent, "HOME"@, "/tmp"@, style),
        ("SHELLABORATE"@, "1"@),
    ] + passed(parent, "LANG"@, style) + passed(parent, "LC_ALL"@, style) + passed(parent, "TERM"@, style) + passed(
        parent,
        "TMPDIR"@,
        style,
    ) + passed(parent, "USER"@, style) + passed(parent, "LOGNAME"@, style)
}

/// The variables of a step, in the order in which they are set; a later one
/// replaces an earlier one of the same name.
pub open spec fn environment_of(
    parent: Seq<(Seq<char>, Seq<char>)>,
    s: StepModel,
    style: Style,
) -> Seq<(Seq<char>, Seq<char>)> {
    base_environment(parent, style) + s.env
}

/// Whether two names name one variable.
fn name_matches(a: &str, b: &str, style: Style) -> (r: bool)
    ensures
        r == same_name(a@, b@, style),
{
    match style {
        Style::Unix => text::same_text(a, b),
        Style::Windows => {
            let x = text::chars_of(a);
            let y = text::chars_of(b);
            let ghost fx = a@.map_values(|c: char| capital(c));
            let ghost fy = b@.map_values(|c: char| capital(c));
            if x.len() != y.len() {
                assert(fx.len() != fy.len());
                return false;
            }
            let mut i: usize = 0;
            while i < x.len()
                invariant
                    i <= x@.len(),
                    x@ == a@,
                    y@ == b@,
                    x@.len() == y@.len(),
                    fx == a@.map_values(|c: char| capital(c)),
                    fy == b@.map_values(|c: char| capital(c)),
                    forall|j: int| 0 <= j < i ==> fx[j] == fy[j],
                decreases x@.len() - i,
            {
                assert(fx[i as int] == capital(x@[i as int]));
                assert(fy[i as int] == capital(y@[i as int]));
                if upper(x[i]) != upper(y[i]) {
                    return false;
                }
                i += 1;
            }
            assert(fx =~= fy);
            true
        },
    }
}

/// `c` as a capital, where it is one of the letters from a to z.
fn upper(c: char) -> (r: char)
    ensures
        r == capital(c),
{
    if 'a' <= c && c <= 'z' {
        (c as u8 - 32) as char
    } else {
        c
    }
}

/// The value of the first variable of the given name.
fn find_variable(env: &Vec<(String, String)>, name: &str, style: Style) -> (r: Option<String>)
    ensures
        text::optional(r) == lookup(protocol::variables(env@), name@, style),
{
    let ghost all = protocol::variables(env@);
    let mut i: usize = 0;
    assert(all.skip(0) =~= all);
    while i < env.len()
        invariant
            i <= env@.len(),
            all == protocol::variables(env@),
            lookup(all, name@, style) == lookup(all.skip(i as int), name@, style),
        decreases env@.len() - i,
    {
        proof {
            assert(all[i as int] == (env@[i as int].0@, env@[i as int].1@));
            assert(all.skip(i as int).drop_first() =~= all.skip(i + 1));
        }
        if name_matches(env[i].0.as_str(), name, style) {
            return Some(env[i].1.clone());
        }
        i += 1;
    }
    None
}

/// Adds a variable.
fn add_variable(out: &mut Vec<(String, String)>, name: &str, value: &str)
    ensures
        protocol::variables(final(out)@) == protocol::variables(old(out)@).push((name@, value@)),
{
    out.push((name.to_owned(), value.to_owned()));
    assert(protocol::variables(out@) =~= protocol::variables(old(out)@).push((name@, value@)));
}

/// Adds the variable as the parent has it, if it has it.
fn pass_variable(
    out: &mut Vec<(String, String)>,
    parent: &Vec<(String, String)>,
    name: &str,
    style: Style,
)
    ensures
        protocol::variables(final(out)@) == protocol::variables(old(out)@) + passed(
            protocol::variables(parent@),
            name@,
            style,
        ),
{
    if let Some(v) = find_variable(parent, name, style) {
        add_variable(out, name, v.as_str());
    }
    assert(protocol::variables(out@) =~= protocol::variables(old(out)@) + passed(
        protocol::variables(parent@),
        name@,
        style,
    ));
}

/// The variables that a step gets, from those of the parent and its own.
pub fn child_env(parent: &Vec<(String, String)>, step: &Step, style: Style) -> (r: Vec<
    (String, String),
>)
    ensures
        protocol::variables(r@) == environment_of(protocol::variables(parent@), step@, style),
{
    let ghost pv = protocol::variables(parent@);
    let mut out: Vec<(String, String)> = Vec::new();
    match find_variable(parent, "PATH", style) {
        Some(v) => add_variable(&mut out, "PATH", v.as_str()),
        None => add_variable(&mut out, "PATH", "/usr/bin:/bin"),
    }
    match find_variable(parent, "HOME", style) {
        Some(v) => add_variable(&mut out, "HOME", v.as_str()),
        None => add_variable(&mut out, "HOME", "/tmp"),
    }
    add_variable(&mut out, "SHELLABORATE", "1");
    assert(protocol::variables(out@) =~= seq![
        kept(pv, "PATH"@, "/usr/bin:/bin"@, style),
        kept(pv, "HOME"@, "/tmp"@, style),
        ("SHELLABORATE"@, "1"@),
    ]);
    pass_variable(&mut out, parent, "LANG", style);
    pass_variable(&mut out, parent, "LC_ALL", style);
    pass_variable(&mut out, parent, "TERM", style);
    pass_variable(&mut out, parent, "TMPDIR", style);
    pass_variable(&mut out, parent, "USER", style);
    pass_variable(&mut out, parent, "LOGNAME", style);
    let mut own = protocol::copy_variables(&step.env);
    let ghost front = out@;
    let ghost back = own@;
    out.append(&mut own);
    assert(protocol::variables(out@) =~= protocol::variables(front) + protocol::variables(back));
    out
}

// ---------- starting ----------

/// What is handed to the system to start a step.
#[derive(Debug, Clone, PartialEq, Eq)]
pub struct Launch {
    /// The shell, `sh` or `bash`.
    pub shell: String,
    /// The program text, the one argument behind `-c`.
    pub script: String,
    pub cwd: String,
    /// The whole environment; a later variable replaces an earlier one of the
    /// same name.
    pub env: Vec<(String, String)>,
    pub timeout_ms: u64,
}

/// Why a step is not started, and the directory to report.
#[derive(Debug, Clone, PartialEq, Eq)]
pub struct Refusal {
    pub error: String,
    pub cwd: Option<String>,
}

/// The contents of a [`Launch`].
pub struct LaunchModel {
    pub shell: Seq<char>,
    pub script: Seq<char>,
    pub cwd: Seq<char>,
    pub env: Seq<(Seq<char>, Seq<char>)>,
    pub timeout_ms: u64,
}

/// The contents of a [`Refusal`].
pub struct RefusalModel {
    pub error: Seq<char>,
    pub cwd: Option<Seq<char>>,
}

impl View for Launch {
    type V = LaunchModel;

    open spec fn view(&self) -> LaunchModel {
        LaunchModel {
            shell: self.shell@,
            script: self.script@,
            cwd: self.cwd@,
            env: protocol::variables(self.env@),
            timeout_ms: self.timeout_ms,
        }
    }
}

impl View for Refusal {
    type V = RefusalModel;

    open spec fn view(&self) -> RefusalModel {
        RefusalModel { error: self.error@, cwd: text::optional(self.cwd) }
    }
}

/// The refusal of a step whose shell is neither `sh` nor `bash`.
pub open spec fn shell_error(s: StepModel) -> ErrorModel {
    ErrorModel::BadShell {
        id: match s.id {
            Some(id) => id,
            None => Seq::empty(),
        },
        got: s.shell->0,
    }
}

/// What is handed to a system that writes paths in the given style to start a
/// step, in a batch called in `base` with the given environment and default time limit; or why it is not
/// started.
pub open spec fn launch_of(
    s: StepModel,
    base: Seq<char>,
    style: Style,
    parent: Seq<(Seq<char>, Seq<char>)>,
    default_ms: u64,
) -> Result<LaunchModel, RefusalModel> {
    match directory_of(asked_directory(s), base, style) {
        Err(error) => Err(RefusalModel { error, cwd: s.cwd }),
        Ok(cwd) => if validation::is_bad_shell(s.shell) {
            let e = shell_error(s);
            Err(
                RefusalModel {
                    error: e.text(
                        outside::debug_text(e.first_quoted()),
                        outside::debug_text(e.second_quoted()),
                    ),
                    cwd: Some(cwd),
                },
            )
        } else {
            Ok(
                LaunchModel {
                    shell: match s.shell {
                        Some(sh) => sh,
                        None => "sh"@,
                    },
                    script: script_of(s),
                    cwd,
                    env: environment_of(parent, s, style),
                    timeout_ms: timeout_of(s, default_ms),
                },
            )
        },
    }
}

/// Prepares a step for the system.
pub fn prepare(
    step: &Step,
    base: &str,
    style: Style,
    parent: &Vec<(String, String)>,
    default_ms: u64,
) -> (r: Result<Launch, Refusal>)
    ensures
        match r {
            Ok(l) => launch_of(step@, base@, style, protocol::variables(parent@), default_ms) == Ok::<
                LaunchModel,
                RefusalModel,
            >(l@),
            Err(e) => launch_of(step@, base@, style, protocol::variables(parent@), default_ms) == Err::<
                LaunchModel,
                RefusalModel,
            >(e@),
        },
{
    let (cd_dir, rest) = shell::strip_cd_prefix(step.cmd.as_str());
    let explicit = step.cwd.is_some();
    let asked = if explicit {
        protocol::copy_optional(&step.cwd)
    } else {
        cd_dir
    };
    let script = if explicit {
        step.cmd.clone()
    } else {
        rest
    };
    let cwd = match resolve_cwd(&asked, base, style) {
        Ok(d) => d,
        Err(error) => {
            return Err(Refusal { error, cwd: protocol::copy_optional(&step.cwd) });
        },
    };
    let shell = match &step.shell {
        None => "sh".to_owned(),
        Some(sh) => {
            if !text::same_text(sh.as_str(), "sh") && !text::same_text(sh.as_str(), "bash") {
                let id = match &step.id {
                    Some(id) => id.clone(),
                    None => String::new(),
                };
                let e = BatchError::BadShell { id, got: sh.clone() };
                assert(step@.id is None ==> id@ =~= Seq::<char>::empty());
                assert(e@ == shell_error(step@));
                return Err(Refusal { error: e.message(), cwd: Some(cwd) });
            }
            sh.clone()
        },
    };
    Ok(
        Launch {
            shell,
            script,
            cwd,
            env: child_env(parent, step, style),
            timeout_ms: match step.timeout_ms {
                Some(t) => t,
                None => default_ms,
            },
        },
    )
}

// ---------- reporting ----------

/// How a started step ended.
#[derive(Debug, Clone, PartialEq, Eq)]
pub enum Outcome {
    /// It exited, with a code unless a signal ended it.
    Exited(Option<i32>),
    /// Waiting for it failed, for the given reason.
    WaitFailed(String),
    /// It was stopped after its time.
    TimedOut,
}

/// The report on a step that was not started.
pub open spec fn unstarted_report(
    s: StepModel,
    error: Seq<char>,
    cwd: Option<Seq<char>>,
    elapsed_ms: u128,
) -> ResultModel {
    ResultModel {
        id: label_of(s),
        cmd: s.cmd,
        kind: shell::kind_of(s.cmd),
        exit: -1i64,
        cwd,
        stdout: None,
        stderr: None,
        stdout_truncated: false,
        stderr_truncated: false,
        elapsed_ms,
        timeout: None,
        error: Some(error),
        git_stat: None,
    }
}

/// The report on a step that was not started.
pub fn report_unstarted(step: &Step, error: String, cwd: Option<String>, elapsed_ms: u128) -> (r:
    StepResult)
    ensures
        r@ == unstarted_report(step@, error@, text::optional(cwd), elapsed_ms),
{
    StepResult {
        id: label(step),
        cmd: step.cmd.clone(),
        kind: shell::classify(step.cmd.as_str()),
        exit: -1,
        cwd,
        stdout: None,
        stderr: None,
        stdout_truncated: false,
        stderr_truncated: false,
        elapsed_ms,
        timeout: None,
        error: Some(error),
        git_stat: None,
    }
}

/// The report on a step whose shell could not be started in `cwd`.
pub fn report_not_spawned(step: &Step, cwd: &str, elapsed_ms: u128) -> (r: StepResult)
    ensures
        r@ == unstarted_report(
            step@,
            "spawn failed (shell not found?)"@,
            Some(cwd@),
            elapsed_ms,
        ),
{
    report_unstarted(
        step,
        "spawn failed (shell not found?)".to_owned(),
        Some(cwd.to_owned()),
        elapsed_ms,
    )
}

/// The reported exit code.
pub open spec fn exit_of(o: Outcome) -> i64 {
    match o {
        Outcome::Exited(Some(c)) => c as i64,
        _ => -1i64,
    }
}

/// What is reported as the error of a step's ending, by itself.
pub open spec fn ending_error(o: Outcome, timeout_ms: u64) -> Option<Seq<char>> {
    match o {
        Outcome::Exited(_) => None,
        Outcome::WaitFailed(e) => Some("wait failed: "@ + e@),
        Outcome::TimedOut => Some(
            "timed out after "@ + text::decimal_of(timeout_ms as nat) + "ms"@,
        ),
    }
}

/// The step is a `gh` command.
pub open spec fn is_gh(cmd: Seq<char>) -> bool {
    shell::kind_of(cmd) == "gh"@
}

/// The step shows the statistics of a difference.
pub open spec fn shows_stat(cmd: Seq<char>) -> bool {
    (text::has(cmd, "diff"@) || text::has(cmd, "show"@)) && text::has(cmd, "--stat"@)
}

/// A stream as it is reported: its masked text, or nothing where that is
/// blank.
pub open spec fn shown_stream(stream: Seq<char>) -> Option<Seq<char>> {
    let m = output::masked(stream);
    if text::trimmed(m).len() > 0 {
        Some(m)
    } else {
        None
    }
}

/// The rows of a difference's statistics in a step's output, where it shows
/// them.
pub open spec fn shown_stat(cmd: Seq<char>, stdout: Seq<char>) -> Option<Seq<StatRow>> {
    let rows = output::rows_among(text::lines_of(output::masked(stdout)));
    if shows_stat(cmd) && rows.len() > 0 {
        Some(rows)
    } else {
        None
    }
}

/// The reported error: that a `gh` sign-in failed, or else that of the
/// ending.
pub open spec fn shown_error(
    cmd: Seq<char>,
    stderr: Seq<char>,
    o: Outcome,
    timeout_ms: u64,
) -> Option<Seq<char>> {
    let auth = output::auth_failure(output::masked(stderr));
    if is_gh(cmd) && auth is Some {
        auth
    } else {
        ending_error(o, timeout_ms)
    }
}

/// The report on a step that ran in `cwd` with the given time limit, from how
/// it ended and the text of its streams.
pub open spec fn report_of(
    s: StepModel,
    cwd: Seq<char>,
    timeout_ms: u64,
    o: Outcome,
    stdout: (Seq<char>, bool),
    stderr: (Seq<char>, bool),
    elapsed_ms: u128,
) -> ResultModel {
    ResultModel {
        id: label_of(s),
        cmd: s.cmd,
        kind: shell::kind_of(s.cmd),
        exit: exit_of(o),
        cwd: Some(cwd),
        stdout: shown_stream(stdout.0),
        stderr: shown_stream(stderr.0),
        stdout_truncated: stdout.1,
        stderr_truncated: stderr.1,
        elapsed_ms,
        timeout: if o is TimedOut {
            Some(true)
        } else {
            None
        },
        error: shown_error(s.cmd, stderr.0, o, timeout_ms),
        git_stat: shown_stat(s.cmd, stdout.0),
    }
}

/// A masked stream, or nothing where it is blank.
fn nonblank(masked: String) -> (r: Option<String>)
    ensures
        text::optional(r) == (if text::trimmed(masked@).len() > 0 {
            Some(masked@)
        } else {
            None
        }),
{
    let cs = text::chars_of(masked.as_str());
    if text::trim(cs.as_slice()).len() > 0 {
        Some(masked)
    } else {
        None
    }
}

/// The report on a step that ran, from how it ended and the text of its
/// streams, each with whether it was cut.
pub fn report(
    step: &Step,
    cwd: &str,
    timeout_ms: u64,
    outcome: &Outcome,
    stdout: (&str, bool),
    stderr: (&str, bool),
    elapsed_ms: u128,
) -> (r: StepResult)
    ensures
        r@ == report_of(
            step@,
            cwd@,
            timeout_ms,
            *outcome,
            (stdout.0@, stdout.1),
            (stderr.0@, stderr.1),
            elapsed_ms,
        ),
{
    let out = output::mask_secrets(stdout.0);
    let err = output::mask_secrets(stderr.0);
    let cs = text::chars_of(step.cmd.as_str());
    let cmd = cs.as_slice();
    let git_stat = if (text::contains_text(cmd, "diff") || text::contains_text(cmd, "show"))
        && text::contains_text(cmd, "--stat") {
        output::parse_git_stat(out.as_str())
    } else {
        None
    };
    let kind = shell::classify(step.cmd.as_str());
    let auth = if text::same_text(kind.as_str(), "gh") {
        output::gh_auth_error(err.as_str())
    } else {
        None
    };
    let error = match auth {
        Some(e) => Some(e),
        None => match outcome {
            Outcome::Exited(_) => None,
            Outcome::WaitFailed(e) => {
                let mut m = "wait failed: ".to_owned();
                m.append(e.as_str());
                Some(m)
            },
            Outcome::TimedOut => {
                let mut m = "timed out after ".to_owned();
                m.append(text::decimal(timeout_ms).as_str());
                m.append("ms");
                Some(m)
            },
        },
    };
    let exit: i64 = match outcome {
        Outcome::Exited(Some(c)) => *c as i64,
        _ => -1,
    };
    let timeout = match outcome {
        Outcome::TimedOut => Some(true),
        _ => None,
    };
    StepResult {
        id: label(step),
        cmd: step.cmd.clone(),
        kind,
        exit,
        cwd: Some(cwd.to_owned()),
        stdout: nonblank(out),
        stderr: nonblank(err),
        stdout_truncated: stdout.1,
        stderr_truncated: stderr.1,
        elapsed_ms,
        timeout,
        error,
        git_stat,
    }
}

/// The report on a step that ran, from how it ended and the bytes of its
/// streams, each with whether it was cut.
pub fn report_bytes(
    step: &Step,
    cwd: &str,
    timeout_ms: u64,
    outcome: &Outcome,
    stdout: (&[u8], bool),
    stderr: (&[u8], bool),
    elapsed_ms: u128,
) -> (r: StepResult)
    ensures
        r@ == report_of(
            step@,
            cwd@,
            timeout_ms,
            *outcome,
            (outside::lossy_text(stdout.0@), stdout.1),
            (outside::lossy_text(stderr.0@), stderr.1),
            elapsed_ms,
        ),
{
    let out = outside::decode_lossy(stdout.0);
    let err = outside::decode_lossy(stderr.0);
    report(
        step,
        cwd,
        timeout_ms,
        outcome,
        (out.as_str(), stdout.1),
        (err.as_str(), stderr.1),
        elapsed_ms,
    )
}

// ---------- what holds of every step ----------

/// The variables that a parent's environment may hand down, and the mark of
/// this program.
pub open spec fn is_allowed(name: Seq<char>, style: Style) -> bool {
    ||| same_name("PATH"@, name, style)
    ||| same_name("HOME"@, name, style)
    ||| same_name("SHELLABORATE"@, name, style)
    ||| same_name("LANG"@, name, style)
    ||| same_name("LC_ALL"@, name, style)
    ||| same_name("TERM"@, name, style)
    ||| same_name("TMPDIR"@, name, style)
    ||| same_name("USER"@, name, style)
    ||| same_name("LOGNAME"@, name, style)
}

/// A variable of the given name is in the environment.
pub open spec fn is_set(
    env: Seq<(Seq<char>, Seq<char>)>,
    name: Seq<char>,
    style: Style,
) -> bool {
    exists|i: int| 0 <= i < env.len() && same_name((#[trigger] env[i]).0, name, style)
}

/// The value that counts where variables are set one after the other: that of
/// the last variable of the given name.
pub open spec fn effective(
    env: Seq<(Seq<char>, Seq<char>)>,
    name: Seq<char>,
    style: Style,
) -> Option<Seq<char>>
    decreases env.len(),
{
    if env.len() == 0 {
        None
    } else if same_name(env.last().0, name, style) {
        Some(env.last().1)
    } else {
        effective(env.drop_last(), name, style)
    }
}

/// A name has a value exactly where it is set.
pub proof fn lemma_effective_is_set(
    env: Seq<(Seq<char>, Seq<char>)>,
    name: Seq<char>,
    style: Style,
)
    ensures
        effective(env, name, style) is Some <==> is_set(env, name, style),
    decreases env.len(),
{
    if env.len() > 0 {
        let front = env.drop_last();
        lemma_effective_is_set(front, name, style);
        assert(env[env.len() - 1] == env.last());
        if is_set(front, name, style) {
            let i = choose|i: int|
                0 <= i < front.len() && same_name((#[trigger] front[i]).0, name, style);
            assert(same_name(env[i].0, name, style));
        }
        if is_set(env, name, style) && !same_name(env.last().0, name, style) {
            let i = choose|i: int|
                0 <= i < env.len() && same_name((#[trigger] env[i]).0, name, style);
            assert(same_name(front[i].0, name, style));
        }
    }
}

/// What is set later counts first.
pub proof fn lemma_effective_concat(
    a: Seq<(Seq<char>, Seq<char>)>,
    b: Seq<(Seq<char>, Seq<char>)>,
    name: Seq<char>,
    style: Style,
)
    ensures
        effective(a + b, name, style) == (if effective(b, name, style) is Some {
            effective(b, name, style)
        } else {
            effective(a, name, style)
        }),
    decreases b.len(),
{
    if b.len() == 0 {
        assert(a + b =~= a);
    } else {
        assert((a + b).drop_last() =~= a + b.drop_last());
        assert((a + b).last() == b.last());
        lemma_effective_concat(a, b.drop_last(), name, style);
    }
}

/// A variable that is handed down has one of the allowed names.
proof fn lemma_base_is_allowed(
    parent: Seq<(Seq<char>, Seq<char>)>,
    style: Style,
    i: int,
    name: Seq<char>,
)
    requires
        0 <= i < base_environment(parent, style).len(),
        same_name(base_environment(parent, style)[i].0, name, style),
    ensures
        is_allowed(name, style),
{
}

/// A variable of the parent reaches a step only under an allowed name; any
/// other variable that a step has is its own.
pub proof fn law_environment_is_closed(
    parent: Seq<(Seq<char>, Seq<char>)>,
    s: StepModel,
    style: Style,
    name: Seq<char>,
)
    requires
        !is_allowed(name, style),
        !is_set(s.env, name, style),
    ensures
        effective(environment_of(parent, s, style), name, style) is None,
{
    let base = base_environment(parent, style);
    if is_set(base, name, style) {
        let i = choose|i: int|
            0 <= i < base.len() && same_name((#[trigger] base[i]).0, name, style);
        lemma_base_is_allowed(parent, style, i, name);
    }
    lemma_effective_concat(base, s.env, name, style);
    lemma_effective_is_set(base, name, style);
    lemma_effective_is_set(s.env, name, style);
}

/// A step's own variables count before those that are handed down.
pub proof fn law_own_variables_win(
    parent: Seq<(Seq<char>, Seq<char>)>,
    s: StepModel,
    style: Style,
    name: Seq<char>,
)
    requires
        is_set(s.env, name, style),
    ensures
        effective(environment_of(parent, s, style), name, style) == effective(s.env, name, style),
        effective(s.env, name, style) is Some,
{
    lemma_effective_concat(base_environment(parent, style), s.env, name, style);
    lemma_effective_is_set(s.env, name, style);
}

/// A step does not start in a directory with a component `..`, whether its
/// `cwd` names the directory or a `cd` in front of its command.
pub proof fn law_traversal_is_refused(
    s: StepModel,
    base: Seq<char>,
    style: Style,
    parent: Seq<(Seq<char>, Seq<char>)>,
    default_ms: u64,
)
    requires
        asked_directory(s) matches Some(d) && paths::has_parent(d, style),
    ensures
        launch_of(s, base, style, parent, default_ms) == Err::<LaunchModel, RefusalModel>(
            RefusalModel {
                error: traversal_text(outside::debug_text(asked_directory(s)->0)),
                cwd: s.cwd,
            },
        ),
{
}

/// A step that begins with `cd DIR && ` runs the rest in that directory.
pub proof fn law_cd_prefix_is_directory(
    s: StepModel,
    dir: Seq<char>,
    rest: Seq<char>,
    base: Seq<char>,
    style: Style,
    parent: Seq<(Seq<char>, Seq<char>)>,
    default_ms: u64,
)
    requires
        s.cwd is None,
        s.cmd == "cd "@ + dir + " && "@ + rest,
        dir.len() > 0,
        !text::is_space(dir[0]),
        !text::is_space(dir.last()),
        forall|i: int| 0 <= i < dir.len() ==> !shell::is_quote(#[trigger] dir[i]),
        !dir.contains(';'),
        !dir.contains('|'),
        !dir.contains('`'),
        !text::has(dir, "&&"@),
        !paths::has_parent(dir, style),
        !validation::is_bad_shell(s.shell),
    ensures
        launch_of(s, base, style, parent, default_ms) matches Ok(l) && l.cwd == paths::path_from(
            base,
            dir,
            style,
        ) && l.script == text::trimmed_start(rest),
{
    shell_laws::law_cd_prefix(dir, rest);
}

/// The shell gets the command as it was written, unless a `cd` in front of it
/// gave the directory.
pub proof fn law_command_is_verbatim(
    s: StepModel,
    base: Seq<char>,
    style: Style,
    parent: Seq<(Seq<char>, Seq<char>)>,
    default_ms: u64,
)
    requires
        s.cwd is Some || shell::cd_split(s.cmd).0 is None,
    ensures
        launch_of(s, base, style, parent, default_ms) matches Ok(l) ==> l.script == s.cmd,
{
}

/// No report shows a text that marks a secret, in either stream.
pub proof fn law_report_shows_no_secret(
    s: StepModel,
    cwd: Seq<char>,
    timeout_ms: u64,
    o: Outcome,
    stdout: (Seq<char>, bool),
    stderr: (Seq<char>, bool),
    elapsed_ms: u128,
    k: int,
)
    requires
        0 <= k < output::secret_marks().len(),
    ensures
        ({
            let r = report_of(s, cwd, timeout_ms, o, stdout, stderr, elapsed_ms);
            &&& r.stdout matches Some(t) ==> !text::has(t, output::secret_marks()[k])
            &&& r.stderr matches Some(t) ==> !text::has(t, output::secret_marks()[k])
        }),
{
    output::law_no_secret_is_shown(stdout.0, k);
    output::law_no_secret_is_shown(stderr.0, k);
}

/// A `gh` command whose error output tells of a failed sign-in is reported
/// with that error, whatever stands in front of it to set its directory.
pub proof fn law_failed_sign_in_is_reported(
    s: StepModel,
    cwd: Seq<char>,
    timeout_ms: u64,
    o: Outcome,
    stdout: (Seq<char>, bool),
    stderr: (Seq<char>, bool),
    elapsed_ms: u128,
)
    requires
        shell::kind_of(s.cmd) == "gh"@,
        output::auth_failure(output::masked(stderr.0)) is Some,
    ensures
        ({
            let r = report_of(s, cwd, timeout_ms, o, stdout, stderr, elapsed_ms);
            &&& r.error == output::auth_failure(output::masked(stderr.0))
            &&& r.kind == "gh"@
            &&& r.exit == exit_of(o)
        }),
{
}

/// A step that exited with 0 is reported so; one that was stopped after its
/// time is reported with -1 and as timed out.
pub proof fn law_exit_is_reported(
    s: StepModel,
    cwd: Seq<char>,
    timeout_ms: u64,
    o: Outcome,
    stdout: (Seq<char>, bool),
    stderr: (Seq<char>, bool),
    elapsed_ms: u128,
)
    ensures
        ({
            let r = report_of(s, cwd, timeout_ms, o, stdout, stderr, elapsed_ms);
            &&& r.exit == 0 <==> o == Outcome::Exited(Some(0))
            &&& r.timeout == Some(true) <==> o is TimedOut
            &&& r.timeout is Some ==> r.exit == -1
        }),
{
}

} // verus!
