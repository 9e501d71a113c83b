//! Requests, results and errors.

use vstd::prelude::*;
use crate::outside;
use crate::output::GitStatLine;
use crate::output::StatRow;
use crate::output;
use crate::text;

verus! {

/// How many steps run at a time where the request does not say.
pub const DEFAULT_CONCURRENCY: usize = 6;

/// How long a step may run, in milliseconds, where nothing says so.
pub const DEFAULT_TIMEOUT_MS: u64 = 30_000;

/// How many commands one request may hold.
pub const MAX_COMMANDS: usize = 50;

// ---------- steps ----------

/// One command of a request.
#[derive(Debug, PartialEq, Eq)]
pub struct Step {
    /// Stable id; the index ("0", "1", ...) where there is none.
    pub id: Option<String>,
    /// The program text for the shell, passed on as it is.
    pub cmd: String,
    /// Working directory. A relative one counts from the directory of the
    /// call; `..` is rejected.
    pub cwd: Option<String>,
    /// Variables set over the sanitized environment, in order.
    pub env: Vec<(String, String)>,
    pub timeout_ms: Option<u64>,
    /// `sh` (where there is none) or `bash`.
    pub shell: Option<String>,
}

/// The contents of a [`Step`].
pub struct StepModel {
    pub id: Option<Seq<char>>,
    pub cmd: Seq<char>,
    pub cwd: Option<Seq<char>>,
    pub env: Seq<(Seq<char>, Seq<char>)>,
    pub timeout_ms: Option<u64>,
    pub shell: Option<Seq<char>>,
}

/// The names and values of environment variables.
pub open spec fn variables(env: Seq<(String, String)>) -> Seq<(Seq<char>, Seq<char>)> {
    env.map_values(|p: (String, String)| (p.0@, p.1@))
}

impl View for Step {
    type V = StepModel;

    open spec fn view(&self) -> StepModel {
        StepModel {
            id: text::optional(self.id),
            cmd: self.cmd@,
            cwd: text::optional(self.cwd),
            env: variables(self.env@),
            timeout_ms: self.timeout_ms,
            shell: text::optional(self.shell),
        }
    }
}

/// The contents of each of `v`.
pub open spec fn step_models(v: Seq<Step>) -> Seq<StepModel> {
    v.map_values(|s: Step| s@)
}

/// A copy of an optional string.
pub fn copy_optional(s: &Option<String>) -> (r: Option<String>)
    ensures
        text::optional(r) == text::optional(*s),
        r is Some <==> s is Some,
{
    match s {
        Some(t) => Some(t.clone()),
        None => None,
    }
}

/// A copy of a list of variables.
pub fn copy_variables(env: &Vec<(String, String)>) -> (r: Vec<(String, String)>)
    ensures
        variables(r@) == variables(env@),
{
    let mut out: Vec<(String, String)> = Vec::new();
    let mut i: usize = 0;
    while i < env.len()
        invariant
            i <= env@.len(),
            out@.len() == i,
            forall|j: int|
                0 <= j < i ==> (#[trigger] out@[j]).0@ == env@[j].0@ && out@[j].1@ == env@[j].1@,
        decreases env@.len() - i,
    {
        out.push((env[i].0.clone(), env[i].1.clone()));
        i += 1;
    }
    assert(variables(out@) =~= variables(env@));
    out
}

impl Clone for Step {
    fn clone(&self) -> (r: Self)
        ensures
            r@ == self@,
    {
        Step {
            id: copy_optional(&self.id),
            cmd: self.cmd.clone(),
            cwd: copy_optional(&self.cwd),
            env: copy_variables(&self.env),
            timeout_ms: self.timeout_ms,
            shell: copy_optional(&self.shell),
        }
    }
}

/// A copy of a list of steps.
pub fn copy_steps(v: &Vec<Step>) -> (r: Vec<Step>)
    ensures
        step_models(r@) == step_models(v@),
        r@.len() == v@.len(),
{
    let mut out: Vec<Step> = Vec::new();
    let mut i: usize = 0;
    while i < v.len()
        invariant
            i <= v@.len(),
            out@.len() == i,
            forall|j: int| 0 <= j < i ==> (#[trigger] out@[j])@ == v@[j]@,
        decreases v@.len() - i,
    {
        out.push(v[i].clone());
        i += 1;
    }
    assert(step_models(out@) =~= step_models(v@));
    out
}

// ---------- edges ----------

/// One dependency: `to` runs only after `from` completes.
#[derive(Debug, PartialEq, Eq)]
pub struct Edge {
    pub from: String,
    pub to: String,
}

/// The contents of an [`Edge`].
pub struct EdgeModel {
    pub from: Seq<char>,
    pub to: Seq<char>,
}

impl View for Edge {
    type V = EdgeModel;

    open spec fn view(&self) -> EdgeModel {
        EdgeModel { from: self.from@, to: self.to@ }
    }
}

/// The contents of each of `v`.
pub open spec fn edge_models(v: Seq<Edge>) -> Seq<EdgeModel> {
    v.map_values(|e: Edge| e@)
}

impl Clone for Edge {
    fn clone(&self) -> (r: Self)
        ensures
            r@ == self@,
    {
        Edge { from: self.from.clone(), to: self.to.clone() }
    }
}

// ---------- capture ----------

/// Which files to hand back after the batch.
#[derive(Debug, PartialEq, Eq)]
pub struct CaptureSpec {
    /// A pattern, relative to the directory of the call.
    pub path: String,
    /// Text files below this size are handed back whole.
    pub inline_max_bytes: Option<u64>,
}

/// The contents of a [`CaptureSpec`].
pub struct CaptureModel {
    pub path: Seq<char>,
    pub inline_max_bytes: Option<u64>,
}

impl View for CaptureSpec {
    type V = CaptureModel;

    open spec fn view(&self) -> CaptureModel {
        CaptureModel { path: self.path@, inline_max_bytes: self.inline_max_bytes }
    }
}

/// The contents of each of `v`.
pub open spec fn capture_models(v: Seq<CaptureSpec>) -> Seq<CaptureModel> {
    v.map_values(|c: CaptureSpec| c@)
}

impl Clone for CaptureSpec {
    fn clone(&self) -> (r: Self)
        ensures
            r@ == self@,
    {
        CaptureSpec { path: self.path.clone(), inline_max_bytes: self.inline_max_bytes }
    }
}

// ---------- requests ----------

/// A batch of commands and how to run them.
#[derive(Debug, Clone, PartialEq, Eq)]
pub struct BatchRequest {
    /// Commands that run in order, each after the one before.
    pub steps: Vec<Step>,
    /// Commands that run as `dag` says; independent ones run concurrently.
    pub commands: Vec<Step>,
    /// Dependencies between command ids.
    pub dag: Vec<Edge>,
    /// Files to hand back after the batch.
    pub capture: Vec<CaptureSpec>,
    pub concurrency: Option<usize>,
    pub timeout_ms: Option<u64>,
    /// Go on after a failure.
    pub keep_going: bool,
    /// Permit denied commands.
    pub allow_dangerous: bool,
}

/// The contents of a [`BatchRequest`].
pub struct RequestModel {
    pub steps: Seq<StepModel>,
    pub commands: Seq<StepModel>,
    pub dag: Seq<EdgeModel>,
    pub capture: Seq<CaptureModel>,
    pub concurrency: Option<usize>,
    pub timeout_ms: Option<u64>,
    pub keep_going: bool,
    pub allow_dangerous: bool,
}

impl View for BatchRequest {
    type V = RequestModel;

    open spec fn view(&self) -> RequestModel {
        RequestModel {
            steps: step_models(self.steps@),
            commands: step_models(self.commands@),
            dag: edge_models(self.dag@),
            capture: capture_models(self.capture@),
            concurrency: self.concurrency,
            timeout_ms: self.timeout_ms,
            keep_going: self.keep_going,
            allow_dangerous: self.allow_dangerous,
        }
    }
}

impl Default for BatchRequest {
    fn default() -> (r: Self)
        ensures
            r.steps@.len() == 0,
            r.commands@.len() == 0,
            r.dag@.len() == 0,
            r.capture@.len() == 0,
            r.concurrency is None,
            r.timeout_ms is None,
            !r.keep_going,
            !r.allow_dangerous,
    {
        BatchRequest {
            steps: Vec::new(),
            commands: Vec::new(),
            dag: Vec::new(),
            capture: Vec::new(),
            concurrency: None,
            timeout_ms: None,
            keep_going: false,
            allow_dangerous: false,
        }
    }
}

impl RequestModel {
    /// The commands of the request: `commands`, or `steps` where there are
    /// none.
    pub open spec fn flat(self) -> Seq<StepModel> {
        if self.commands.len() > 0 {
            self.commands
        } else {
            self.steps
        }
    }

    /// The commands run in order, each after the one before.
    pub open spec fn is_linear(self) -> bool {
        self.commands.len() == 0
    }
}

impl BatchRequest {
    /// The commands of the request in one list.
    pub fn flat_commands(&self) -> (r: Vec<Step>)
        ensures
            step_models(r@) == self@.flat(),
    {
        if self.commands.len() > 0 {
            copy_steps(&self.commands)
        } else {
            copy_steps(&self.steps)
        }
    }
}

// ---------- results ----------

/// What became of one step.
#[derive(Debug, Clone, PartialEq, Eq)]
pub struct StepResult {
    pub id: String,
    pub cmd: String,
    /// `shell`, `git` or `gh`.
    pub kind: String,
    /// The exit code; -1 for a step that timed out or could not be started.
    pub exit: i64,
    /// The directory that the step ran in.
    pub cwd: Option<String>,
    pub stdout: Option<String>,
    pub stderr: Option<String>,
    pub stdout_truncated: bool,
    pub stderr_truncated: bool,
    pub elapsed_ms: u128,
    pub timeout: Option<bool>,
    pub error: Option<String>,
    /// The rows of `git diff --stat` and `git show --stat`.
    pub git_stat: Option<Vec<GitStatLine>>,
}

/// The contents of a [`StepResult`].
pub struct ResultModel {
    pub id: Seq<char>,
    pub cmd: Seq<char>,
    pub kind: Seq<char>,
    pub exit: i64,
    pub cwd: Option<Seq<char>>,
    pub stdout: Option<Seq<char>>,
    pub stderr: Option<Seq<char>>,
    pub stdout_truncated: bool,
    pub stderr_truncated: bool,
    pub elapsed_ms: u128,
    pub timeout: Option<bool>,
    pub error: Option<Seq<char>>,
    pub git_stat: Option<Seq<StatRow>>,
}

impl View for StepResult {
    type V = ResultModel;

    open spec fn view(&self) -> ResultModel {
        ResultModel {
            id: self.id@,
            cmd: self.cmd@,
            kind: self.kind@,
            exit: self.exit,
            cwd: text::optional(self.cwd),
            stdout: text::optional(self.stdout),
            stderr: text::optional(self.stderr),
            stdout_truncated: self.stdout_truncated,
            stderr_truncated: self.stderr_truncated,
            elapsed_ms: self.elapsed_ms,
            timeout: self.timeout,
            error: text::optional(self.error),
            git_stat: match self.git_stat {
                Some(v) => Some(output::stat_rows(v@)),
                None => None,
            },
        }
    }
}

/// One captured file.
#[derive(Debug, Clone, PartialEq, Eq)]
pub struct Artifact {
    pub path: String,
    pub size: u64,
    /// The SHA-256 of the file, in lower-case hexadecimal.
    pub sha256: String,
    /// The file's text, where it is handed back whole.
    pub content: Option<String>,
    pub inlined: bool,
}

/// The contents of an [`Artifact`].
pub struct ArtifactModel {
    pub path: Seq<char>,
    pub size: u64,
    pub sha256: Seq<char>,
    pub content: Option<Seq<char>>,
    pub inlined: bool,
}

impl View for Artifact {
    type V = ArtifactModel;

    open spec fn view(&self) -> ArtifactModel {
        ArtifactModel {
            path: self.path@,
            size: self.size,
            sha256: self.sha256@,
            content: text::optional(self.content),
            inlined: self.inlined,
        }
    }
}

/// What became of a batch.
#[derive(Debug, Clone, PartialEq, Eq)]
pub struct BatchResponse {
    /// Every step ran and exited with 0.
    pub ok: bool,
    /// The results, in the order of the request.
    pub results: Vec<StepResult>,
    /// The ids of the steps that were never started.
    pub skipped: Vec<String>,
    pub elapsed_ms: u128,
    pub error: Option<String>,
    /// The captured files, where the request asks for any.
    pub artifacts: Option<Vec<Artifact>>,
}

// ---------- errors ----------

/// Why a request is refused.
#[derive(Debug, Clone, PartialEq, Eq)]
pub enum BatchError {
    Empty,
    TooManyCommands(usize),
    DuplicateId(String),
    UnknownDep { from: String, to: String },
    Cycle(String),
    BadShell { id: String, got: String },
    Dangerous { id: String, reason: String },
    CaptureTraversal(String),
}

/// The contents of a [`BatchError`].
pub enum ErrorModel {
    Empty,
    TooManyCommands(usize),
    DuplicateId(Seq<char>),
    UnknownDep { from: Seq<char>, to: Seq<char> },
    Cycle(Seq<char>),
    BadShell { id: Seq<char>, got: Seq<char> },
    Dangerous { id: Seq<char>, reason: Seq<char> },
    CaptureTraversal(Seq<char>),
}

impl View for BatchError {
    type V = ErrorModel;

    open spec fn view(&self) -> ErrorModel {
        match self {
            BatchError::Empty => ErrorModel::Empty,
            BatchError::TooManyCommands(n) => ErrorModel::TooManyCommands(*n),
            BatchError::DuplicateId(id) => ErrorModel::DuplicateId(id@),
            BatchError::UnknownDep { from, to } => ErrorModel::UnknownDep { from: from@, to: to@ },
            BatchError::Cycle(ids) => ErrorModel::Cycle(ids@),
            BatchError::BadShell { id, got } => ErrorModel::BadShell { id: id@, got: got@ },
            BatchError::Dangerous { id, reason } => ErrorModel::Dangerous {
                id: id@,
                reason: reason@,
            },
            BatchError::CaptureTraversal(path) => ErrorModel::CaptureTraversal(path@),
        }
    }
}

impl ErrorModel {
    /// The first value that the message quotes.
    pub open spec fn first_quoted(self) -> Seq<char> {
        match self {
            ErrorModel::DuplicateId(id) => id,
            ErrorModel::UnknownDep { from, to } => from,
            ErrorModel::BadShell { id, got } => id,
            ErrorModel::Dangerous { id, reason } => id,
            ErrorModel::CaptureTraversal(path) => path,
            _ => Seq::empty(),
        }
    }

    /// The second value that the message quotes.
    pub open spec fn second_quoted(self) -> Seq<char> {
        match self {
            ErrorModel::UnknownDep { from, to } => to,
            ErrorModel::BadShell { id, got } => got,
            _ => Seq::empty(),
        }
    }

    /// The message, where the quoted values are written as `first` and
    /// `second`.
    pub open spec fn text(self, first: Seq<char>, second: Seq<char>) -> Seq<char> {
        match self {
            ErrorModel::Empty => "empty request: provide `steps` or `commands`"@,
            ErrorModel::TooManyCommands(n) => "too many commands: "@ + text::decimal_of(n as nat)
                + " > cap "@ + text::decimal_of(MAX_COMMANDS as nat),
            ErrorModel::DuplicateId(_) => "duplicate step id: "@ + first,
            ErrorModel::UnknownDep { .. } => "unknown dependency: edge "@ + first + " -> "@
                + second,
            ErrorModel::Cycle(ids) => "dependency cycle involving: "@ + ids,
            ErrorModel::BadShell { .. } => "step "@ + first
                + ": shell must be \"sh\" or \"bash\", got "@ + second,
            ErrorModel::Dangerous { id, reason } => "step "@ + first
                + ": denied by safety denylist: "@ + reason
                + " (pass --allow-dangerous to override)"@,
            ErrorModel::CaptureTraversal(_) => "capture "@ + first
                + " contains '..' (path traversal rejected)"@,
        }
    }
}

impl BatchError {
    /// The message, where the quoted values are written as `first` and
    /// `second`.
    pub fn message_with(&self, first: &str, second: &str) -> (r: String)
        ensures
            r@ == self@.text(first@, second@),
    {
        match self {
            BatchError::Empty => "empty request: provide `steps` or `commands`".to_owned(),
            BatchError::TooManyCommands(n) => {
                let mut out = "too many commands: ".to_owned();
                out.append(text::decimal(*n as u64).as_str());
                out.append(" > cap ");
                out.append(text::decimal(MAX_COMMANDS as u64).as_str());
                out
            },
            BatchError::DuplicateId(_) => {
                let mut out = "duplicate step id: ".to_owned();
                out.append(first);
                out
            },
            BatchError::UnknownDep { .. } => {
                let mut out = "unknown dependency: edge ".to_owned();
                out.append(first);
                out.append(" -> ");
                out.append(second);
                out
            },
            BatchError::Cycle(ids) => {
                let mut out = "dependency cycle involving: ".to_owned();
                out.append(ids.as_str());
                out
            },
            BatchError::BadShell { .. } => {
                let mut out = "step ".to_owned();
                out.append(first);
                out.append(": shell must be \"sh\" or \"bash\", got ");
                out.append(second);
                out
            },
            BatchError::Dangerous { id: _, reason } => {
                let mut out = "step ".to_owned();
                out.append(first);
                out.append(": denied by safety denylist: ");
                out.append(reason.as_str());
                out.append(" (pass --allow-dangerous to override)");
                out
            },
            BatchError::CaptureTraversal(_) => {
                let mut out = "capture ".to_owned();
                out.append(first);
                out.append(" contains '..' (path traversal rejected)");
                out
            },
        }
    }

    /// The message for the caller.
    pub fn message(&self) -> (r: String)
        ensures
            r@ == self@.text(
                outside::debug_text(self@.first_quoted()),
                outside::debug_text(self@.second_quoted()),
            ),
    {
        let none = String::new();
        let (a, b): (&str, &str) = match self {
            BatchError::DuplicateId(id) => (id.as_str(), none.as_str()),
            BatchError::UnknownDep { from, to } => (from.as_str(), to.as_str()),
            BatchError::BadShell { id, got } => (id.as_str(), got.as_str()),
            BatchError::Dangerous { id, reason: _ } => (id.as_str(), none.as_str()),
            BatchError::CaptureTraversal(path) => (path.as_str(), none.as_str()),
            _ => (none.as_str(), none.as_str()),
        };
        let first = outside::debug_quote(a);
        let second = outside::debug_quote(b);
        self.message_with(first.as_str(), second.as_str())
    }
}

} // verus!
