//! What holds of every step: what it is started with, and what is reported of
//! it.

use vstd::prelude::*;
use crate::outside;
use crate::output;
use crate::output_laws;
use crate::paths;
use crate::paths::Style;
use crate::protocol::StepModel;
use crate::shell;
use crate::step;
use crate::step::Outcome;
use crate::text;
use crate::text_laws;

verus! {

// ---------- starting ----------

/// A time limit that a step has counts, however it compares with that of the
/// batch; the batch's counts where the step has none.
pub proof fn law_own_time_limit_counts(
    s: StepModel,
    base: Seq<char>,
    style: Style,
    parent: Seq<(Seq<char>, Seq<char>)>,
    default_ms: u64,
)
    ensures
        step::launch_of(s, base, style, parent, default_ms) matches Ok(l) ==> {
            &&& s.timeout_ms matches Some(t) ==> l.timeout_ms == t
            &&& s.timeout_ms is None ==> l.timeout_ms == default_ms
        },
{
}

/// A step starts exactly where its directory has no component `..` and its
/// shell is `sh` or `bash`, or not given: then it is `sh`.
pub proof fn law_started_exactly(
    s: StepModel,
    base: Seq<char>,
    style: Style,
    parent: Seq<(Seq<char>, Seq<char>)>,
    default_ms: u64,
)
    ensures
        ({
            let r = step::launch_of(s, base, style, parent, default_ms);
            let asked = match s.cwd {
                Some(d) => Some(d),
                None => shell::cd_split(s.cmd).0,
            };
            let climbs = asked matches Some(d) && paths::has_parent(d, style);
            let known = s.shell is None || s.shell == Some(seq!['s', 'h']) || s.shell == Some(
                seq!['b', 'a', 's', 'h'],
            );
            &&& r is Ok <==> !climbs && known
            &&& r matches Ok(l) ==> {
                &&& s.shell matches Some(sh) ==> l.shell == sh
                &&& s.shell is None ==> l.shell == seq!['s', 'h']
                &&& asked is None ==> l.cwd == base
                &&& asked matches Some(d) ==> l.cwd == paths::path_from(base, d, style)
                &&& s.cwd is Some ==> l.script == s.cmd
                &&& s.cwd is None ==> l.script == shell::cd_split(s.cmd).1
            }
            &&& climbs ==> {
                &&& r is Err
                &&& r->Err_0.cwd == s.cwd
                &&& r->Err_0.error == "cwd "@ + outside::debug_text(asked->0)
                    + " contains '..' (path traversal rejected)"@
            }
            &&& !climbs && !known ==> r is Err && r->Err_0.cwd == Some(
                match asked {
                    Some(d) => paths::path_from(base, d, style),
                    None => base,
                },
            )
            &&& !climbs && !known ==> r->Err_0.error == "step "@ + outside::debug_text(
                match s.id {
                    Some(id) => id,
                    None => Seq::empty(),
                },
            ) + ": shell must be \"sh\" or \"bash\", got "@ + outside::debug_text(s.shell->0)
        }),
{
    reveal_strlit("sh");
    reveal_strlit("bash");
    assert("sh"@ =~= seq!['s', 'h']);
    assert("bash"@ =~= seq!['b', 'a', 's', 'h']);
}

// ---------- the environment ----------

/// Where the same name counts: on Unix where the names are equal, on Windows
/// where they differ at most in the case of letters of ASCII.
pub proof fn law_same_name(a: Seq<char>, b: Seq<char>)
    ensures
        step::same_name(a, b, Style::Unix) <==> a == b,
        step::same_name(a, b, Style::Windows) <==> {
            &&& a.len() == b.len()
            &&& forall|i: int|
                0 <= i < a.len() ==> {
                    ||| #[trigger] a[i] == b[i]
                    ||| 'a' <= a[i] && a[i] <= 'z' && b[i] as int == a[i] as int - 32
                    ||| 'A' <= a[i] && a[i] <= 'Z' && b[i] as int == a[i] as int + 32
                }
        },
{
    let x = a.map_values(|c: char| step::capital(c));
    let y = b.map_values(|c: char| step::capital(c));
    if x == y {
        assert(x.len() == a.len() && y.len() == b.len());
        assert forall|i: int| 0 <= i < a.len() implies {
            ||| #[trigger] a[i] == b[i]
            ||| 'a' <= a[i] && a[i] <= 'z' && b[i] as int == a[i] as int - 32
            ||| 'A' <= a[i] && a[i] <= 'Z' && b[i] as int == a[i] as int + 32
        } by {
            assert(x[i] == step::capital(a[i]) && y[i] == step::capital(b[i]));
        }
    }
    if a.len() == b.len() && forall|i: int|
        0 <= i < a.len() ==> {
            ||| #[trigger] a[i] == b[i]
            ||| 'a' <= a[i] && a[i] <= 'z' && b[i] as int == a[i] as int - 32
            ||| 'A' <= a[i] && a[i] <= 'Z' && b[i] as int == a[i] as int + 32
        } {
        assert forall|i: int| 0 <= i < x.len() implies #[trigger] x[i] == y[i] by {
            assert(x[i] == step::capital(a[i]) && y[i] == step::capital(b[i]));
            assert(a[i] == a[i]);
        }
        assert(x =~= y);
    }
}

/// Of several variables of a name in the parent the first counts.
pub proof fn law_first_of_the_parent(
    parent: Seq<(Seq<char>, Seq<char>)>,
    name: Seq<char>,
    style: Style,
    i: int,
)
    requires
        0 <= i <= parent.len(),
        forall|j: int| 0 <= j < i ==> !step::same_name((#[trigger] parent[j]).0, name, style),
        i < parent.len() ==> step::same_name(parent[i].0, name, style),
    ensures
        step::lookup(parent, name, style) == if i < parent.len() {
            Some(parent[i].1)
        } else {
            None
        },
    decreases parent.len(),
{
    if i > 0 {
        let t = parent.drop_first();
        assert(!step::same_name(parent[0].0, name, style));
        assert forall|j: int| 0 <= j < i - 1 implies !step::same_name(
            (#[trigger] t[j]).0,
            name,
            style,
        ) by {
            assert(t[j] == parent[j + 1]);
        }
        law_first_of_the_parent(t, name, style, i - 1);
    }
}

/// Of several variables of a name that are set the last counts.
pub proof fn law_last_that_is_set(
    env: Seq<(Seq<char>, Seq<char>)>,
    name: Seq<char>,
    style: Style,
    i: int,
)
    requires
        -1 <= i < env.len(),
        forall|j: int| i < j < env.len() ==> !step::same_name((#[trigger] env[j]).0, name, style),
        i >= 0 ==> step::same_name(env[i].0, name, style),
    ensures
        step::effective(env, name, style) == if i >= 0 {
            Some(env[i].1)
        } else {
            None
        },
    decreases env.len(),
{
    if i < env.len() - 1 {
        let t = env.drop_last();
        assert(!step::same_name(env[env.len() - 1].0, name, style));
        law_last_that_is_set(t, name, style, i);
    }
}

/// Names of different lengths, or that begin with different capitals, are not
/// the same.
proof fn lemma_other_name(a: Seq<char>, b: Seq<char>, style: Style)
    requires
        a.len() > 0,
        b.len() > 0,
        a.len() != b.len() || step::capital(a[0]) != step::capital(b[0]),
    ensures
        !step::same_name(a, b, style),
{
    let x = a.map_values(|c: char| step::capital(c));
    let y = b.map_values(|c: char| step::capital(c));
    assert(x.len() == a.len() && y.len() == b.len());
    assert(x[0] == step::capital(a[0]) && y[0] == step::capital(b[0]));
}

/// The names that are handed down, by length and first letter.
proof fn lemma_names()
    ensures
        "PATH"@.len() == 4 && "PATH"@[0] == 'P',
        "HOME"@.len() == 4 && "HOME"@[0] == 'H',
        "SHELLABORATE"@.len() == 12 && "SHELLABORATE"@[0] == 'S',
        "LANG"@.len() == 4 && "LANG"@[0] == 'L',
        "LC_ALL"@.len() == 6 && "LC_ALL"@[0] == 'L',
        "TERM"@.len() == 4 && "TERM"@[0] == 'T',
        "TMPDIR"@.len() == 6 && "TMPDIR"@[0] == 'T',
        "USER"@.len() == 4 && "USER"@[0] == 'U',
        "LOGNAME"@.len() == 7 && "LOGNAME"@[0] == 'L',
{
    reveal_strlit("PATH");
    reveal_strlit("HOME");
    reveal_strlit("SHELLABORATE");
    reveal_strlit("LANG");
    reveal_strlit("LC_ALL");
    reveal_strlit("TERM");
    reveal_strlit("TMPDIR");
    reveal_strlit("USER");
    reveal_strlit("LOGNAME");
}

/// What one variable gives a name.
proof fn lemma_one_variable(n: Seq<char>, v: Seq<char>, name: Seq<char>, style: Style)
    ensures
        step::effective(seq![(n, v)], name, style) == if step::same_name(n, name, style) {
            Some(v)
        } else {
            None
        },
{
    let e = seq![(n, v)];
    assert(e.last() == (n, v));
    assert(step::effective(e.drop_last(), name, style) is None);
}

/// What a variable that is handed down gives a name.
proof fn lemma_passed(
    parent: Seq<(Seq<char>, Seq<char>)>,
    n: Seq<char>,
    name: Seq<char>,
    style: Style,
)
    ensures
        step::effective(step::passed(parent, n, style), name, style) == if step::same_name(
            n,
            name,
            style,
        ) {
            step::lookup(parent, n, style)
        } else {
            None
        },
{
    match step::lookup(parent, n, style) {
        Some(v) => {
            lemma_one_variable(n, v, name, style);
        },
        None => {},
    }
}

/// What counts of two lists of variables set one after the other.
pub open spec fn later(a: Option<Seq<char>>, b: Option<Seq<char>>) -> Option<Seq<char>> {
    if b is Some {
        b
    } else {
        a
    }
}

/// What every step gets, name by name.
proof fn lemma_base(parent: Seq<(Seq<char>, Seq<char>)>, name: Seq<char>, style: Style)
    ensures
        ({
            let path = step::kept(parent, "PATH"@, "/usr/bin:/bin"@, style);
            let home = step::kept(parent, "HOME"@, "/tmp"@, style);
            let front = later(
                later(
                    step::effective(seq![path], name, style),
                    step::effective(seq![home], name, style),
                ),
                step::effective(seq![("SHELLABORATE"@, "1"@)], name, style),
            );
            let a = later(front, step::effective(step::passed(parent, "LANG"@, style), name, style));
            let b = later(a, step::effective(step::passed(parent, "LC_ALL"@, style), name, style));
            let c = later(b, step::effective(step::passed(parent, "TERM"@, style), name, style));
            let d = later(c, step::effective(step::passed(parent, "TMPDIR"@, style), name, style));
            let e = later(d, step::effective(step::passed(parent, "USER"@, style), name, style));
            step::effective(step::base_environment(parent, style), name, style) == later(
                e,
                step::effective(step::passed(parent, "LOGNAME"@, style), name, style),
            )
        }),
{
    let path = seq![step::kept(parent, "PATH"@, "/usr/bin:/bin"@, style)];
    let home = seq![step::kept(parent, "HOME"@, "/tmp"@, style)];
    let mark = seq![("SHELLABORATE"@, "1"@)];
    let front = seq![path[0], home[0], mark[0]];
    assert(front =~= path + home + mark);
    step::lemma_effective_concat(path, home, name, style);
    step::lemma_effective_concat(path + home, mark, name, style);
    let l = step::passed(parent, "LANG"@, style);
    let c = step::passed(parent, "LC_ALL"@, style);
    let t = step::passed(parent, "TERM"@, style);
    let d = step::passed(parent, "TMPDIR"@, style);
    let u = step::passed(parent, "USER"@, style);
    let n = step::passed(parent, "LOGNAME"@, style);
    step::lemma_effective_concat(front, l, name, style);
    step::lemma_effective_concat(front + l, c, name, style);
    step::lemma_effective_concat(front + l + c, t, name, style);
    step::lemma_effective_concat(front + l + c + t, d, name, style);
    step::lemma_effective_concat(front + l + c + t + d, u, name, style);
    step::lemma_effective_concat(front + l + c + t + d + u, n, name, style);
    assert(step::base_environment(parent, style) =~= front + l + c + t + d + u + n);
}

/// A variable that the parent hands down reaches a step with the parent's
/// value, unless the step sets it: the search path, the home, the locale, the
/// terminal, the place for temporary files and the user.
pub proof fn law_variable_is_handed_down(
    parent: Seq<(Seq<char>, Seq<char>)>,
    s: StepModel,
    style: Style,
    name: Seq<char>,
)
    requires
        name == "PATH"@ || name == "HOME"@ || name == "LANG"@ || name == "LC_ALL"@ || name
            == "TERM"@ || name == "TMPDIR"@ || name == "USER"@ || name == "LOGNAME"@,
        step::lookup(parent, name, style) is Some,
        !step::is_set(s.env, name, style),
    ensures
        step::effective(step::environment_of(parent, s, style), name, style) == step::lookup(
            parent,
            name,
            style,
        ),
{
    lemma_handed_down(parent, s, style, name);
}

/// A variable that the parent lacks and the step does not set is not there;
/// but for the search path and the home, which then have fixed values.
pub proof fn law_missing_variable(
    parent: Seq<(Seq<char>, Seq<char>)>,
    s: StepModel,
    style: Style,
    name: Seq<char>,
)
    requires
        name == "PATH"@ || name == "HOME"@ || name == "LANG"@ || name == "LC_ALL"@ || name
            == "TERM"@ || name == "TMPDIR"@ || name == "USER"@ || name == "LOGNAME"@,
        step::lookup(parent, name, style) is None,
        !step::is_set(s.env, name, style),
    ensures
        step::effective(step::environment_of(parent, s, style), name, style) == if name
            == "PATH"@ {
            Some("/usr/bin:/bin"@)
        } else if name == "HOME"@ {
            Some("/tmp"@)
        } else {
            None
        },
{
    lemma_handed_down(parent, s, style, name);
}

/// A step finds the mark of this program in its environment, unless it sets
/// the variable itself.
pub proof fn law_program_is_marked(
    parent: Seq<(Seq<char>, Seq<char>)>,
    s: StepModel,
    style: Style,
)
    requires
        !step::is_set(s.env, "SHELLABORATE"@, style),
    ensures
        step::effective(step::environment_of(parent, s, style), "SHELLABORATE"@, style) == Some(
            "1"@,
        ),
{
    let name = "SHELLABORATE"@;
    lemma_names();
    lemma_parts(parent, name, style);
    lemma_base(parent, name, style);
    lemma_distinct(name, style);
    step::lemma_effective_concat(step::base_environment(parent, style), s.env, name, style);
    step::lemma_effective_is_set(s.env, name, style);
    assert(step::same_name(name, name, style));
}

/// No variable but the nine that are known by name is in the environment of a
/// step, unless the step sets it: whatever else the parent has does not reach
/// it.
pub proof fn law_nothing_else_is_handed_down(
    parent: Seq<(Seq<char>, Seq<char>)>,
    s: StepModel,
    style: Style,
    name: Seq<char>,
)
    requires
        !step::same_name("PATH"@, name, style),
        !step::same_name("HOME"@, name, style),
        !step::same_name("SHELLABORATE"@, name, style),
        !step::same_name("LANG"@, name, style),
        !step::same_name("LC_ALL"@, name, style),
        !step::same_name("TERM"@, name, style),
        !step::same_name("TMPDIR"@, name, style),
        !step::same_name("USER"@, name, style),
        !step::same_name("LOGNAME"@, name, style),
        !step::is_set(s.env, name, style),
    ensures
        step::effective(step::environment_of(parent, s, style), name, style) is None,
        forall|i: int|
            0 <= i < step::environment_of(parent, s, style).len() ==> !step::same_name(
                (#[trigger] step::environment_of(parent, s, style)[i]).0,
                name,
                style,
            ),
{
    let env = step::environment_of(parent, s, style);
    step::law_environment_is_closed(parent, s, style, name);
    step::lemma_effective_is_set(env, name, style);
    assert forall|i: int| 0 <= i < env.len() implies !step::same_name(
        (#[trigger] env[i]).0,
        name,
        style,
    ) by {
        if step::same_name(env[i].0, name, style) {
            assert(step::is_set(env, name, style));
        }
    }
}

/// What each part of what every step gets gives a name.
proof fn lemma_parts(parent: Seq<(Seq<char>, Seq<char>)>, name: Seq<char>, style: Style)
    ensures
        step::effective(
            seq![step::kept(parent, "PATH"@, "/usr/bin:/bin"@, style)],
            name,
            style,
        ) == if step::same_name("PATH"@, name, style) {
            Some(step::kept(parent, "PATH"@, "/usr/bin:/bin"@, style).1)
        } else {
            None
        },
        step::effective(seq![step::kept(parent, "HOME"@, "/tmp"@, style)], name, style)
            == if step::same_name("HOME"@, name, style) {
            Some(step::kept(parent, "HOME"@, "/tmp"@, style).1)
        } else {
            None
        },
        step::effective(seq![("SHELLABORATE"@, "1"@)], name, style) == if step::same_name(
            "SHELLABORATE"@,
            name,
            style,
        ) {
            Some("1"@)
        } else {
            None
        },
        forall|n: Seq<char>| #[trigger]
            step::effective(step::passed(parent, n, style), name, style) == if step::same_name(
                n,
                name,
                style,
            ) {
                step::lookup(parent, n, style)
            } else {
                None
            },
{
    let path = step::kept(parent, "PATH"@, "/usr/bin:/bin"@, style);
    let home = step::kept(parent, "HOME"@, "/tmp"@, style);
    lemma_one_variable(path.0, path.1, name, style);
    lemma_one_variable(home.0, home.1, name, style);
    lemma_one_variable("SHELLABORATE"@, "1"@, name, style);
    assert forall|n: Seq<char>| #[trigger]
        step::effective(step::passed(parent, n, style), name, style) == if step::same_name(
            n,
            name,
            style,
        ) {
            step::lookup(parent, n, style)
        } else {
            None
        } by {
        lemma_passed(parent, n, name, style);
    }
}

/// A name that is handed down is the same as no other of them.
proof fn lemma_distinct(name: Seq<char>, style: Style)
    requires
        name == "PATH"@ || name == "HOME"@ || name == "SHELLABORATE"@ || name == "LANG"@ || name
            == "LC_ALL"@ || name == "TERM"@ || name == "TMPDIR"@ || name == "USER"@ || name
            == "LOGNAME"@,
    ensures
        name != "PATH"@ ==> !step::same_name("PATH"@, name, style),
        name != "HOME"@ ==> !step::same_name("HOME"@, name, style),
        name != "SHELLABORATE"@ ==> !step::same_name("SHELLABORATE"@, name, style),
        name != "LANG"@ ==> !step::same_name("LANG"@, name, style),
        name != "LC_ALL"@ ==> !step::same_name("LC_ALL"@, name, style),
        name != "TERM"@ ==> !step::same_name("TERM"@, name, style),
        name != "TMPDIR"@ ==> !step::same_name("TMPDIR"@, name, style),
        name != "USER"@ ==> !step::same_name("USER"@, name, style),
        name != "LOGNAME"@ ==> !step::same_name("LOGNAME"@, name, style),
{
    lemma_names();
    if name != "PATH"@ {
        lemma_other_name("PATH"@, name, style);
    }
    if name != "HOME"@ {
        lemma_other_name("HOME"@, name, style);
    }
    if name != "SHELLABORATE"@ {
        lemma_other_name("SHELLABORATE"@, name, style);
    }
    if name != "LANG"@ {
        lemma_other_name("LANG"@, name, style);
    }
    if name != "LC_ALL"@ {
        lemma_other_name("LC_ALL"@, name, style);
    }
    if name != "TERM"@ {
        lemma_other_name("TERM"@, name, style);
    }
    if name != "TMPDIR"@ {
        lemma_other_name("TMPDIR"@, name, style);
    }
    if name != "USER"@ {
        lemma_other_name("USER"@, name, style);
    }
    if name != "LOGNAME"@ {
        lemma_other_name("LOGNAME"@, name, style);
    }
}

/// What a step gets of a variable that may be handed down.
proof fn lemma_handed_down(
    parent: Seq<(Seq<char>, Seq<char>)>,
    s: StepModel,
    style: Style,
    name: Seq<char>,
)
    requires
        name == "PATH"@ || name == "HOME"@ || name == "LANG"@ || name == "LC_ALL"@ || name
            == "TERM"@ || name == "TMPDIR"@ || name == "USER"@ || name == "LOGNAME"@,
        !step::is_set(s.env, name, style),
    ensures
        step::effective(step::environment_of(parent, s, style), name, style)
            == match step::lookup(parent, name, style) {
            Some(v) => Some(v),
            None => if name == "PATH"@ {
                Some("/usr/bin:/bin"@)
            } else if name == "HOME"@ {
                Some("/tmp"@)
            } else {
                None
            },
        },
{
    lemma_names();
    lemma_parts(parent, name, style);
    lemma_base(parent, name, style);
    lemma_distinct(name, style);
    step::lemma_effective_concat(step::base_environment(parent, style), s.env, name, style);
    step::lemma_effective_is_set(s.env, name, style);
    assert(step::same_name(name, name, style));
}

// ---------- reporting ----------

/// However a step ended, each of its streams is reported exactly where it
/// holds more than white space when its secrets are masked, and as it then is.
pub proof fn law_streams_are_reported(
    s: StepModel,
    cwd: Seq<char>,
    timeout_ms: u64,
    o: Outcome,
    stdout: (Seq<char>, bool),
    stderr: (Seq<char>, bool),
    elapsed_ms: u128,
)
    ensures
        ({
            let r = step::report_of(s, cwd, timeout_ms, o, stdout, stderr, elapsed_ms);
            let out = output::masked(stdout.0);
            let err = output::masked(stderr.0);
            &&& r.stdout is Some <==> exists|i: int|
                0 <= i < out.len() && !text::is_space(#[trigger] out[i])
            &&& r.stdout matches Some(t) ==> t == out
            &&& r.stderr is Some <==> exists|i: int|
                0 <= i < err.len() && !text::is_space(#[trigger] err[i])
            &&& r.stderr matches Some(t) ==> t == err
        }),
{
    text_laws::law_blank_text(output::masked(stdout.0));
    text_laws::law_blank_text(output::masked(stderr.0));
}

/// However a step ended, a stream whose lines all end, that holds no mark of a
/// secret and more than white space, is reported character for character.
pub proof fn law_harmless_streams_are_verbatim(
    s: StepModel,
    cwd: Seq<char>,
    timeout_ms: u64,
    o: Outcome,
    stdout: (Seq<char>, bool),
    stderr: (Seq<char>, bool),
    elapsed_ms: u128,
    stream: Seq<char>,
    i: int,
)
    requires
        0 <= i < stream.len(),
        !text::is_space(stream[i]),
        stream.last() == '\n',
        forall|m: Seq<char>| #[trigger]
            output_laws::marks_a_secret(m) ==> !text::has(stream, m),
    ensures
        ({
            let r = step::report_of(s, cwd, timeout_ms, o, stdout, stderr, elapsed_ms);
            &&& stdout.0 == stream ==> r.stdout == Some(stream)
            &&& stderr.0 == stream ==> r.stderr == Some(stream)
        }),
{
    output_laws::law_unmarked_text_is_shown(stream);
    text_laws::law_blank_text(stream);
}

/// A step is reported with its id, or the first 24 characters of its command
/// where it has none; with its command, its directory, its time, and whether
/// its streams were cut, as they are.
pub proof fn law_report_names_the_step(
    s: StepModel,
    cwd: Seq<char>,
    timeout_ms: u64,
    o: Outcome,
    stdout: (Seq<char>, bool),
    stderr: (Seq<char>, bool),
    elapsed_ms: u128,
)
    ensures
        ({
            let r = step::report_of(s, cwd, timeout_ms, o, stdout, stderr, elapsed_ms);
            &&& s.id matches Some(id) ==> r.id == id
            &&& s.id is None ==> {
                &&& r.id.len() <= 24
                &&& r.id.len() <= s.cmd.len()
                &&& r.id.len() == 24 || r.id.len() == s.cmd.len()
                &&& forall|i: int| 0 <= i < r.id.len() ==> #[trigger] r.id[i] == s.cmd[i]
            }
            &&& r.cmd == s.cmd
            &&& r.cwd == Some(cwd)
            &&& r.elapsed_ms == elapsed_ms
            &&& r.stdout_truncated == stdout.1
            &&& r.stderr_truncated == stderr.1
        }),
{
}

/// A step that exited is reported with its code, whatever it is; any other
/// ending with -1. It is reported as timed out exactly where it was stopped
/// after its time.
pub proof fn law_ending_is_reported(
    s: StepModel,
    cwd: Seq<char>,
    timeout_ms: u64,
    o: Outcome,
    stdout: (Seq<char>, bool),
    stderr: (Seq<char>, bool),
    elapsed_ms: u128,
)
    ensures
        ({
            let r = step::report_of(s, cwd, timeout_ms, o, stdout, stderr, elapsed_ms);
            &&& o matches Outcome::Exited(Some(c)) ==> r.exit == c
            &&& !(o matches Outcome::Exited(Some(_))) ==> r.exit == -1
            &&& o is TimedOut ==> r.timeout == Some(true)
            &&& !(o is TimedOut) ==> r.timeout is None
        }),
{
}

/// Unless a `gh` sign-in failed, the error that is reported is that of the
/// ending: none where the step exited, with whatever code.
pub proof fn law_error_is_reported(
    s: StepModel,
    cwd: Seq<char>,
    timeout_ms: u64,
    o: Outcome,
    stdout: (Seq<char>, bool),
    stderr: (Seq<char>, bool),
    elapsed_ms: u128,
)
    ensures
        ({
            let r = step::report_of(s, cwd, timeout_ms, o, stdout, stderr, elapsed_ms);
            let sign_in = output::auth_failure(output::masked(stderr.0));
            let gh = r.kind == seq!['g', 'h'];
            &&& gh && sign_in is Some ==> r.error == sign_in
            &&& !gh || sign_in is None ==> {
                &&& o is Exited ==> r.error is None
                &&& o matches Outcome::WaitFailed(e) ==> r.error == Some("wait failed: "@ + e@)
                &&& o is TimedOut ==> r.error == Some(
                    "timed out after "@ + text::decimal_of(timeout_ms as nat) + "ms"@,
                )
            }
        }),
{
    reveal_strlit("gh");
    assert("gh"@ =~= seq!['g', 'h']);
}

/// The statistics of a difference are reported exactly where the command asks
/// for them and its output, masked, has a row of them; then all rows are.
pub proof fn law_statistics_are_reported(
    s: StepModel,
    cwd: Seq<char>,
    timeout_ms: u64,
    o: Outcome,
    stdout: (Seq<char>, bool),
    stderr: (Seq<char>, bool),
    elapsed_ms: u128,
)
    ensures
        ({
            let r = step::report_of(s, cwd, timeout_ms, o, stdout, stderr, elapsed_ms);
            let rows = output::rows_among(text::lines_of(output::masked(stdout.0)));
            let asks = (text::has(s.cmd, seq!['d', 'i', 'f', 'f']) || text::has(
                s.cmd,
                seq!['s', 'h', 'o', 'w'],
            )) && text::has(s.cmd, seq!['-', '-', 's', 't', 'a', 't']);
            &&& r.git_stat is Some <==> asks && rows.len() > 0
            &&& r.git_stat matches Some(g) ==> g == rows
        }),
{
    reveal_strlit("diff");
    reveal_strlit("show");
    reveal_strlit("--stat");
    assert("diff"@ =~= seq!['d', 'i', 'f', 'f']);
    assert("show"@ =~= seq!['s', 'h', 'o', 'w']);
    assert("--stat"@ =~= seq!['-', '-', 's', 't', 'a', 't']);
}

/// A step that was not started is reported with -1 and the reason, and with
/// no streams.
pub proof fn law_unstarted_is_reported(
    s: StepModel,
    error: Seq<char>,
    cwd: Option<Seq<char>>,
    elapsed_ms: u128,
)
    ensures
        ({
            let r = step::unstarted_report(s, error, cwd, elapsed_ms);
            &&& s.id matches Some(id) ==> r.id == id
            &&& s.id is None ==> {
                &&& r.id.len() <= 24
                &&& r.id.len() <= s.cmd.len()
                &&& r.id.len() == 24 || r.id.len() == s.cmd.len()
                &&& forall|i: int| 0 <= i < r.id.len() ==> #[trigger] r.id[i] == s.cmd[i]
            }
            &&& r.cmd == s.cmd
            &&& r.cwd == cwd
            &&& r.exit == -1
            &&& r.error == Some(error)
            &&& r.stdout is None
            &&& r.stderr is None
            &&& !r.stdout_truncated
            &&& !r.stderr_truncated
            &&& r.timeout is None
            &&& r.git_stat is None
            &&& r.elapsed_ms == elapsed_ms
        }),
{
}

} // verus!
