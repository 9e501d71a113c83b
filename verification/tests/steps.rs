//! Running a batch step by step, with the endings of the steps given.

use shellaborate::artifact::artifact;
use shellaborate::artifact::components;
use shellaborate::artifact::describe;
use shellaborate::artifact::hex;
use shellaborate::artifact::is_pattern;
use shellaborate::artifact::name_matches;
use shellaborate::artifact::note;
use shellaborate::artifact::Found;
use shellaborate::batch::Batch;
use shellaborate::capture::StreamCapture;
use shellaborate::cli;
use shellaborate::paths::Style;
use shellaborate::schedule::Action;
use shellaborate::shell::classify;
use shellaborate::step::child_env;
use shellaborate::step::prepare;
use shellaborate::step::report_bytes;
use shellaborate::step::report_not_spawned;
use shellaborate::step::report_unstarted;
use shellaborate::step::resolve_cwd;
use shellaborate::step::Outcome;
use shellaborate::BatchRequest;
use shellaborate::BatchResponse;
use shellaborate::CaptureSpec;
use shellaborate::Edge;
use shellaborate::Step;
use shellaborate::StepResult;
use shellaborate::MAX_STREAM_BYTES;

fn step(cmd: &str) -> Step {
    Step {
        id: None,
        cmd: cmd.to_owned(),
        cwd: None,
        env: Vec::new(),
        timeout_ms: None,
        shell: None,
    }
}

fn sid(id: &str, cmd: &str) -> Step {
    Step { id: Some(id.to_owned()), ..step(cmd) }
}

fn edge(from: &str, to: &str) -> Edge {
    Edge { from: from.into(), to: to.into() }
}

/// What a few commands do: `echo WORDS` and `exit N`, behind any `sleep`.
fn ending(script: &str) -> (i32, String) {
    let last = script.rsplit("&& ").next().unwrap();
    if let Some(words) = last.strip_prefix("echo ") {
        (0, format!("{words}\n"))
    } else if let Some(code) = last.strip_prefix("exit ") {
        (code.parse().unwrap(), String::new())
    } else {
        (0, String::new())
    }
}

fn result_of(s: &Step, default_ms: u64) -> StepResult {
    match prepare(s, "/repo", Style::Unix, &Vec::new(), default_ms) {
        Ok(launch) => {
            let (code, out) = ending(&launch.script);
            report_bytes(
                s,
                &launch.cwd,
                launch.timeout_ms,
                &Outcome::Exited(Some(code)),
                (out.as_bytes(), false),
                (b"", false),
                5,
            )
        }
        Err(refusal) => report_unstarted(s, refusal.error, refusal.cwd, 0),
    }
}

/// Runs a batch; the step that started last ends first if `newest` says so.
/// Also gives the ids in the order in which they ended, and how many steps
/// ran at a time at most.
fn run(req: &BatchRequest, newest: bool) -> (BatchResponse, Vec<String>, usize) {
    let mut batch = Batch::begin(req).expect("valid request");
    let mut running: Vec<usize> = Vec::new();
    let mut ended: Vec<String> = Vec::new();
    let mut most: usize = 0;
    loop {
        match batch.next() {
            Action::Start(i) => {
                running.push(i);
                most = most.max(running.len());
            }
            Action::Wait => {
                let i = if newest { running.pop().unwrap() } else { running.remove(0) };
                assert!(batch.is_running(i));
                let r = result_of(batch.step(i), batch.timeout_ms());
                ended.push(r.id.clone());
                batch.complete(i, r);
            }
            Action::Done => break,
        }
    }
    (batch.respond(7, None), ended, most)
}

#[test]
fn linear_chain_runs_in_order() {
    let req = BatchRequest {
        steps: vec![step("echo a"), step("echo b")],
        ..Default::default()
    };
    let (resp, ended, most) = run(&req, false);
    assert!(resp.ok, "{resp:?}");
    assert_eq!(resp.results.len(), 2);
    assert_eq!(resp.results[0].stdout.as_deref(), Some("a\n"));
    assert_eq!(resp.results[1].stdout.as_deref(), Some("b\n"));
    assert!(resp.skipped.is_empty());
    assert_eq!(ended, vec!["0", "1"]);
    assert_eq!(most, 1);
    assert_eq!(resp.elapsed_ms, 7);
    assert_eq!(resp.error, None);
}

#[test]
fn diamond_dag() {
    let req = BatchRequest {
        commands: vec![
            sid("a", "echo a"),
            sid("b", "sleep 0.1 && echo b"),
            sid("c", "echo c"),
            sid("d", "echo d"),
        ],
        dag: vec![edge("a", "b"), edge("a", "c"), edge("b", "d"), edge("c", "d")],
        ..Default::default()
    };
    let (resp, ended, _) = run(&req, true);
    assert!(resp.ok, "{resp:?}");
    assert_eq!(resp.results.len(), 4);
    assert_eq!(resp.results[3].id, "d");
    assert_eq!(ended, vec!["a", "c", "b", "d"]);
}

#[test]
fn independent_branches_run_concurrently() {
    let req = BatchRequest {
        commands: vec![sid("a", "sleep 0.3 && echo a"), sid("b", "sleep 0.3 && echo b")],
        concurrency: Some(2),
        ..Default::default()
    };
    let (resp, _, most) = run(&req, false);
    assert!(resp.ok);
    assert_eq!(most, 2);
}

#[test]
fn failure_skips_dependents() {
    let req = BatchRequest {
        commands: vec![sid("a", "exit 3"), sid("b", "echo never")],
        dag: vec![edge("a", "b")],
        ..Default::default()
    };
    let (resp, _, _) = run(&req, false);
    assert!(!resp.ok);
    assert_eq!(resp.results[0].exit, 3);
    let ran: Vec<&str> = resp.results.iter().map(|r| r.id.as_str()).collect();
    let skipped: Vec<&str> = resp.skipped.iter().map(|s| s.as_str()).collect();
    assert!(skipped.contains(&"b"), "dependent must be skipped: {skipped:?}");
    assert!(!ran.contains(&"b"));
}

#[test]
fn failure_stops_unscheduled_work() {
    let req = BatchRequest {
        commands: vec![
            sid("a", "exit 3"),
            sid("c", "sleep 0.3 && echo c"),
            sid("d", "echo d"),
        ],
        dag: vec![edge("c", "d")],
        ..Default::default()
    };
    let (resp, ended, _) = run(&req, false);
    assert!(!resp.ok);
    let skipped: Vec<&str> = resp.skipped.iter().map(|s| s.as_str()).collect();
    assert!(skipped.contains(&"d"), "unscheduled successor must be skipped: {skipped:?}");
    assert_eq!(ended, vec!["a", "c"]);
    assert_eq!(resp.results.len(), 2);
}

#[test]
fn keep_going_runs_independent_branches() {
    let req = BatchRequest {
        commands: vec![sid("a", "exit 3"), sid("b", "echo survivor")],
        keep_going: true,
        ..Default::default()
    };
    let (resp, _, _) = run(&req, false);
    assert!(!resp.ok);
    let b = resp.results.iter().find(|r| r.id == "b").expect("b must run with keep_going");
    assert_eq!(b.stdout.as_deref(), Some("survivor\n"));
}

#[test]
fn keep_going_runs_dependents_of_a_failure() {
    let req = BatchRequest {
        commands: vec![sid("a", "exit 3"), sid("b", "echo b")],
        dag: vec![edge("a", "b")],
        keep_going: true,
        ..Default::default()
    };
    let (resp, ended, _) = run(&req, false);
    assert_eq!(ended, vec!["a", "b"]);
    assert!(!resp.ok);
    assert!(resp.skipped.is_empty());
}

#[test]
fn the_limit_holds_and_queued_steps_are_skipped() {
    let commands: Vec<Step> = (0..5).map(|i| sid(&format!("s{i}"), "exit 1")).collect();
    let req = BatchRequest { commands, concurrency: Some(2), ..Default::default() };
    let (resp, ended, most) = run(&req, false);
    assert_eq!(most, 2);
    assert_eq!(ended, vec!["s0", "s1"]);
    assert_eq!(resp.skipped, vec!["s2", "s3", "s4"]);
    let none = BatchRequest {
        commands: vec![step("echo a"), step("echo b")],
        concurrency: Some(0),
        ..Default::default()
    };
    assert_eq!(run(&none, false).2, 1);
    let unsaid = BatchRequest {
        commands: (0..10).map(|_| step("echo a")).collect(),
        ..Default::default()
    };
    assert_eq!(run(&unsaid, false).2, 6);
}

#[test]
fn steps_start_in_the_order_of_becoming_ready() {
    let mut req = BatchRequest {
        commands: vec![sid("a", "exit 1"), sid("b", "echo b"), sid("c", "echo c")],
        dag: vec![edge("b", "a")],
        concurrency: Some(1),
        ..Default::default()
    };
    let (resp, ended, _) = run(&req, false);
    assert_eq!(ended, vec!["b", "c", "a"]);
    assert!(resp.skipped.is_empty());
    // Steps that become ready together start by number.
    req.dag = vec![edge("c", "a"), edge("c", "b")];
    req.keep_going = true;
    assert_eq!(run(&req, false).1, vec!["c", "a", "b"]);
}

#[test]
fn a_failed_dependency_keeps_a_step_from_running() {
    let req = BatchRequest {
        commands: vec![sid("a", "echo a"), sid("b", "exit 1"), sid("c", "echo c")],
        dag: vec![edge("a", "c"), edge("b", "c")],
        ..Default::default()
    };
    let (resp, ended, _) = run(&req, false);
    assert_eq!(ended, vec!["a", "b"]);
    assert_eq!(resp.skipped, vec!["c"]);
}

#[test]
fn results_keep_the_order_of_the_request() {
    let req = BatchRequest {
        commands: vec![sid("z", "echo 1"), sid("y", "echo 2"), sid("x", "echo 3")],
        ..Default::default()
    };
    let (resp, ended, _) = run(&req, true);
    assert_eq!(ended, vec!["x", "y", "z"]);
    let ids: Vec<&str> = resp.results.iter().map(|r| r.id.as_str()).collect();
    assert_eq!(ids, vec!["z", "y", "x"]);
}

#[test]
fn fixture_dag_runs_and_captures() {
    let req = BatchRequest {
        commands: vec![
            sid("a", "echo a"),
            sid("b", "echo b"),
            sid("c", "sleep 0.1 && echo c"),
            sid("d", "cat /nonexistent-file-xyz 2>/dev/null; echo d"),
        ],
        dag: vec![edge("a", "c")],
        ..Default::default()
    };
    let (resp, _, _) = run(&req, false);
    assert!(resp.ok);
    assert_eq!(resp.results.len(), 4);
    assert_eq!(resp.results[0].stdout.as_deref(), Some("a\n"));
    assert_eq!(resp.results[1].stdout.as_deref(), Some("b\n"));
    assert_eq!(resp.results[2].stdout.as_deref(), Some("c\n"));
    assert_eq!(resp.results[0].kind, "shell");
}

#[test]
fn git_and_gh_kinds_classified() {
    let req = BatchRequest {
        steps: vec![sid("g", "git --version"), sid("h", "gh --version")],
        ..Default::default()
    };
    let (resp, _, _) = run(&req, false);
    let kinds: Vec<&str> = resp.results.iter().map(|r| r.kind.as_str()).collect();
    assert_eq!(kinds, vec!["git", "gh"]);
    assert_eq!(classify("  cd x && git log"), "git");
    assert_eq!(classify("gitk"), "shell");
    assert_eq!(classify(""), "shell");
}

#[test]
fn exit_code_propagates_failure() {
    let req = BatchRequest { steps: vec![step("exit 7")], ..Default::default() };
    let (resp, _, _) = run(&req, false);
    assert_eq!(cli::exit_code(resp.ok), 1, "batch failure must exit 1");
    assert_eq!(resp.results[0].exit, 7);
    assert_eq!(cli::exit_code(true), 0);
}

#[test]
fn timeout_reports_structured() {
    let mut s = step("sleep 5");
    s.timeout_ms = Some(200);
    let launch = prepare(&s, "/repo", Style::Unix, &Vec::new(), 30_000).unwrap();
    assert_eq!(launch.timeout_ms, 200);
    let r = report_bytes(&s, "/repo", 200, &Outcome::TimedOut, (b"", false), (b"", false), 201);
    assert_eq!(r.exit, -1);
    assert_eq!(r.timeout, Some(true));
    assert_eq!(r.error.as_deref(), Some("timed out after 200ms"));
    assert_eq!(r.id, "sleep 5");
}

#[test]
fn env_merge_and_cd_strip() {
    let mut s = step("echo $FOO in $(pwd)");
    s.env.push(("FOO".into(), "bar".into()));
    s.cmd = format!("cd /tmp && {}", s.cmd);
    let launch = prepare(&s, "/repo", Style::Unix, &Vec::new(), 1).unwrap();
    assert_eq!(launch.cwd, "/tmp");
    assert_eq!(launch.script, "echo $FOO in $(pwd)");
    assert_eq!(launch.shell, "sh");
    assert!(launch.env.contains(&("FOO".to_owned(), "bar".to_owned())));
    let relative = prepare(&step("cd crates/x && cargo test"), "/repo", Style::Unix, &Vec::new(), 1).unwrap();
    assert_eq!(relative.cwd, "/repo/crates/x");
    assert_eq!(relative.script, "cargo test");
    let mut both = step("cd a && ls");
    both.cwd = Some("b".into());
    let both = prepare(&both, "/repo", Style::Unix, &Vec::new(), 1).unwrap();
    assert_eq!(both.cwd, "/repo/b");
    assert_eq!(both.script, "cd a && ls");
}

#[test]
fn cwd_traversal_rejected() {
    let mut s = step("echo x");
    s.cwd = Some("../../etc".into());
    let req = BatchRequest { steps: vec![s], ..Default::default() };
    let (resp, _, _) = run(&req, false);
    assert!(!resp.ok);
    assert!(resp.results[0].error.as_deref().unwrap().contains("traversal"));
    assert_eq!(
        resp.results[0].error.as_deref(),
        Some("cwd \"../../etc\" contains '..' (path traversal rejected)")
    );
    assert_eq!(resp.results[0].cwd.as_deref(), Some("../../etc"));
}

#[test]
fn audit_cwd_escape_rejected_both_ways() {
    let mut s = step("pwd");
    s.cwd = Some("../../".into());
    let smuggled = step("cd ../../../etc && head -1 passwd");
    for s in [s, smuggled] {
        let req = BatchRequest { steps: vec![s], ..Default::default() };
        let (resp, _, _) = run(&req, false);
        assert_eq!(cli::exit_code(resp.ok), 1);
        let r = &resp.results[0];
        assert!(r.error.as_deref().unwrap().contains("path traversal rejected"));
        assert_eq!(r.stdout, None);
        assert_eq!(r.exit, -1);
    }
}

#[test]
fn directories() {
    let unix = |p: &str, base: &str| resolve_cwd(&Some(p.to_owned()), base, Style::Unix);
    assert_eq!(resolve_cwd(&None, "/repo", Style::Unix), Ok("/repo".to_owned()));
    assert_eq!(unix("a", "/repo"), Ok("/repo/a".to_owned()));
    assert_eq!(unix("a", "/"), Ok("/a".to_owned()));
    assert_eq!(unix("/x", "/repo"), Ok("/x".to_owned()));
    assert_eq!(unix("/repo//x", "/repo"), Ok("/repo//x".to_owned()));
    assert_eq!(unix("a..b/..c", "/repo"), Ok("/repo/a..b/..c".to_owned()));
    assert_eq!(unix("..\\x", "/repo"), Ok("/repo/..\\x".to_owned()));
    assert!(unix("a/..", "/repo").is_err());
    assert!(unix("a/../b", "/repo").is_err());
}

#[test]
fn directories_on_windows() {
    let from = |base: &str, p: &str| resolve_cwd(&Some(p.to_owned()), base, Style::Windows);
    let windows = |p: &str| from(r"C:\repo", p);
    let ok = |p: &str| Ok(p.to_owned());
    assert_eq!(windows(r"a\b"), ok(r"C:\repo\a\b"));
    assert_eq!(windows("a/b"), ok(r"C:\repo\a/b"));
    assert_eq!(windows(r"D:\x"), ok(r"D:\x"));
    assert_eq!(windows("D:x"), ok("D:x"));
    assert_eq!(windows(r"\x"), ok(r"C:\x"));
    assert_eq!(windows("/x"), ok("C:/x"));
    assert_eq!(windows(r"\\host\share"), ok(r"\\host\share"));
    assert_eq!(windows(r"\\..\share\x"), ok(r"\\..\share\x"));
    assert_eq!(windows("a..b"), ok(r"C:\repo\a..b"));
    assert_eq!(from(r"\\host\share\d", r"\x"), ok(r"\\host\share\x"));
    assert_eq!(from("C:", "x"), ok("C:x"));
    assert_eq!(from(r"C:\", "x"), ok(r"C:\x"));
    assert!(windows(r"..\x").is_err());
    assert!(windows(r"a\..").is_err());
    assert!(windows("a/../b").is_err());
    assert!(windows("C:..").is_err());
    assert!(windows(r"D:\..\x").is_err());
    assert!(windows(r"\\host\share\..\x").is_err());
    assert!(windows(r"\\host\..").is_ok());
    assert!(windows(r"\\.\dev\..").is_err());
}

#[test]
fn verbatim_directories() {
    let from = |base: &str, p: &str| resolve_cwd(&Some(p.to_owned()), base, Style::Windows);
    let ok = |p: &str| Ok(p.to_owned());
    assert_eq!(from("C:", r"\\?\C:\a/../b"), ok(r"\\?\C:\a/../b"));
    assert!(from("C:", r"\\?\C:\a\..\b").is_err());
    assert!(from("C:", r"\\?\UNC\h\s\..").is_err());
    assert_eq!(from("C:", r"\\?\UNC\..\s"), ok(r"\\?\UNC\..\s"));
    assert_eq!(from(r"\\?\C:\d", "a/./b"), ok(r"\\?\C:\d\a\b"));
    assert_eq!(from(r"\\?\C:\d", r"\x"), ok(r"\\?\C:\x"));
    assert_eq!(from(r"\\?\UNC\h\s", "x"), ok(r"\\?\UNC\h\s\x"));
    assert_eq!(from(r"\\?\C:\", "."), ok(r"\\?\C:\"));
}

#[test]
fn environment_names_on_windows() {
    let pair = |k: &str, v: &str| (k.to_owned(), v.to_owned());
    let parent = vec![pair("Path", r"C:\bin"), pair("home", "h"), pair("Lang", "C"), pair("X", "y")];
    assert_eq!(
        child_env(&parent, &step("x"), Style::Windows),
        vec![
            pair("PATH", r"C:\bin"),
            pair("HOME", "h"),
            pair("SHELLABORATE", "1"),
            pair("LANG", "C")
        ]
    );
    assert_eq!(child_env(&parent, &step("x"), Style::Unix)[0], pair("PATH", "/usr/bin:/bin"));
}

#[test]
fn a_shell_that_does_not_start_is_reported() {
    let r = report_not_spawned(&sid("a", "echo"), "/d", 3);
    assert_eq!(r.error.as_deref(), Some("spawn failed (shell not found?)"));
    assert_eq!(r.exit, -1);
    assert_eq!(r.cwd.as_deref(), Some("/d"));
    assert_eq!(r.elapsed_ms, 3);
}

#[test]
fn env_sanitized_no_ambient_secrets() {
    let pair = |k: &str, v: &str| (k.to_owned(), v.to_owned());
    let parent = vec![
        pair("PATH", "/bin"),
        pair("AMBIENT_SECRET", "x"),
        pair("LANG", "C"),
        pair("GH_TOKEN", "ghp_AMBIENTSECRET000000"),
    ];
    let mut s = step("echo \"[$AMBIENT_SECRET]\"");
    let env = child_env(&parent, &s, Style::Unix);
    assert_eq!(
        env,
        vec![pair("PATH", "/bin"), pair("HOME", "/tmp"), pair("SHELLABORATE", "1"), pair("LANG", "C")]
    );
    s.env.push(pair("LANG", "de"));
    s.env.push(pair("GH_TOKEN", "own"));
    let env = child_env(&parent, &s, Style::Unix);
    assert_eq!(env[4..], [pair("LANG", "de"), pair("GH_TOKEN", "own")]);
    assert_eq!(
        child_env(&Vec::new(), &step("x"), Style::Unix),
        vec![pair("PATH", "/usr/bin:/bin"), pair("HOME", "/tmp"), pair("SHELLABORATE", "1")]
    );
}

#[test]
fn audit_secret_env_does_not_leak() {
    let r = report_bytes(
        &step("echo token=$GH_TOKEN"),
        "/repo",
        1,
        &Outcome::Exited(Some(0)),
        (b"token=ghp_SUPERSECRET123456\n", false),
        (b"GH_TOKEN=zzz\n", false),
        0,
    );
    assert_eq!(r.stdout.as_deref(), Some("§§§§§§§§\n"));
    assert_eq!(r.stderr.as_deref(), Some("§§§§§§§§\n"));
}

#[test]
fn gh_failure_surfaces_cleanly() {
    let report = |cmd: &str, err: &str| {
        report_bytes(
            &step(cmd),
            "/repo",
            1,
            &Outcome::Exited(Some(1)),
            (b"", false),
            (err.as_bytes(), false),
            0,
        )
    };
    let r = report("gh api user", "HTTP 401: Bad credentials");
    assert_eq!(
        r.error.as_deref(),
        Some("gh auth invalid: token rejected (401) — refresh with `gh auth login`")
    );
    assert_eq!(r.exit, 1);
    for cmd in ["cd x && gh api user", "cd 'a b' && gh", "gh\tapi user", "gh"] {
        let r = report(cmd, "please run gh auth login");
        assert_eq!(
            r.error.as_deref(),
            Some("gh auth required: run `gh auth login` (token missing or expired)"),
            "{cmd}"
        );
        assert_eq!(r.kind, "gh");
        assert_eq!(r.exit, 1);
    }
    assert_eq!(report("gh api user", "connection refused").error, None);
    assert_eq!(report("curl x", "HTTP 401").error, None);
}

#[test]
fn git_diff_stat_parsing() {
    let out = " f.txt | 3 ++-\n g.txt | 1 +\n 2 files changed, 3 insertions(+), 1 deletion(-)\n";
    let report = |cmd: &str| {
        report_bytes(
            &step(cmd),
            "/repo",
            1,
            &Outcome::Exited(Some(0)),
            (out.as_bytes(), false),
            (b"", false),
            0,
        )
    };
    let stat = report("git diff --cached --stat").git_stat.unwrap();
    let paths: Vec<&str> = stat.iter().map(|s| s.path.as_str()).collect();
    assert_eq!(paths, vec!["f.txt", "g.txt"]);
    assert!(report("git log --stat").git_stat.is_none());
    assert!(report("git show").git_stat.is_none());
}

#[test]
fn reports_in_full() {
    let s = step("a command longer than the label");
    let r = report_bytes(
        &s,
        "/d",
        9,
        &Outcome::WaitFailed("gone".into()),
        (b"  \n", true),
        (&[0x61, 0xff, 0x62], false),
        12,
    );
    assert_eq!(r.id, "a command longer than th");
    assert_eq!(r.cmd, "a command longer than the label");
    assert_eq!(r.error.as_deref(), Some("wait failed: gone"));
    assert_eq!(r.exit, -1);
    assert_eq!(r.timeout, None);
    assert_eq!(r.stdout, None);
    assert!(r.stdout_truncated);
    assert_eq!(r.stderr.as_deref(), Some("a\u{fffd}b\n"));
    assert!(!r.stderr_truncated);
    assert_eq!(r.cwd.as_deref(), Some("/d"));
    assert_eq!(r.elapsed_ms, 12);
    let killed = report_bytes(&s, "/d", 9, &Outcome::Exited(None), (b"", false), (b"", false), 0);
    assert_eq!(killed.exit, -1);
    assert_eq!(killed.error, None);
}

#[test]
fn a_step_with_another_shell_is_refused() {
    let mut s = sid("x", "echo");
    s.shell = Some("fish".into());
    let refusal = prepare(&s, "/repo", Style::Unix, &Vec::new(), 1).unwrap_err();
    assert_eq!(refusal.error, "step \"x\": shell must be \"sh\" or \"bash\", got \"fish\"");
    assert_eq!(refusal.cwd.as_deref(), Some("/repo"));
    s.shell = Some("bash".into());
    assert_eq!(prepare(&s, "/repo", Style::Unix, &Vec::new(), 1).unwrap().shell, "bash");
}

#[test]
fn audit_output_dos_capped() {
    let mut capture = StreamCapture::new();
    let chunk = vec![b'y'; 8192];
    let mut sent: usize = 0;
    while sent < 10 * 1024 * 1024 {
        capture.absorb(&chunk);
        sent += chunk.len();
    }
    let (bytes, cut) = capture.finish();
    assert!(cut);
    assert!(bytes.len() <= 5 * 1024 * 1024 + 8192, "captured {} bytes", bytes.len());
}

#[test]
fn output_cap_truncates() {
    let mut capture = StreamCapture::new();
    capture.absorb(&vec![b'a'; MAX_STREAM_BYTES]);
    let (bytes, cut) = capture.finish();
    assert_eq!(bytes.len(), MAX_STREAM_BYTES);
    assert!(!cut);
    let mut capture = StreamCapture::new();
    capture.absorb(&vec![b'a'; MAX_STREAM_BYTES - 1]);
    capture.absorb(b"bc");
    capture.absorb(b"d");
    let (bytes, cut) = capture.finish();
    assert!(cut, "expected truncation flag");
    assert_eq!(bytes.len(), MAX_STREAM_BYTES + 1);
    assert_eq!(bytes[bytes.len() - 2..], *b"bc");
}

#[test]
fn timings_flag_adds_summary_table() {
    let req = BatchRequest {
        steps: vec![step("echo a"), step("sleep 0.05 && echo b")],
        ..Default::default()
    };
    let (resp, _, _) = run(&req, false);
    let timings = cli::timings(&resp.results);
    assert_eq!(timings, vec![("0".to_owned(), 5), ("1".to_owned(), 5)]);
}

// ---------- captured files ----------

fn spec(path: &str, limit: Option<u64>) -> CaptureSpec {
    CaptureSpec { path: path.to_owned(), inline_max_bytes: limit }
}

fn found(path: &str, limit: u64) -> Found {
    Found { path: path.to_owned(), limit }
}

#[test]
fn capture_flag_collects_artifacts() {
    let mut req = BatchRequest {
        steps: vec![step("echo build ok > out.txt && echo v1 > out.ver")],
        ..Default::default()
    };
    cli::apply_flags(&mut req, false, &vec!["out.txt".to_owned(), "out.ver".to_owned()]);
    assert_eq!(req.capture, vec![spec("out.txt", None), spec("out.ver", None)]);
    let mut files: Vec<Found> = Vec::new();
    for c in &req.capture {
        note(&mut files, c, &c.path);
    }
    assert_eq!(files, vec![found("out.txt", 65_536), found("out.ver", 65_536)]);
    let txt = artifact(&files[0], b"build ok\n");
    assert_eq!(txt.path, "out.txt");
    assert_eq!(txt.content.as_deref(), Some("build ok\n"));
    assert!(txt.inlined);
    assert_eq!(txt.sha256.len(), 64);
    assert_eq!(txt.size, 9);
}

#[test]
fn capture_json_field_and_cli_flag_merge() {
    let mut req = BatchRequest {
        steps: vec![step("echo a > f1.txt && echo b > f2.txt")],
        capture: vec![spec("f1.txt", Some(3))],
        ..Default::default()
    };
    cli::apply_flags(&mut req, false, &vec!["f2.txt".to_owned(), "f1.txt".to_owned()]);
    let mut files: Vec<Found> = Vec::new();
    for c in &req.capture {
        note(&mut files, c, &c.path);
    }
    assert_eq!(files, vec![found("f1.txt", 3), found("f2.txt", 65_536)]);
}

#[test]
fn capture_works_on_failed_batch() {
    let req = BatchRequest {
        steps: vec![step("echo step1 > ok.log"), step("exit 5")],
        capture: vec![spec("ok.log", None)],
        ..Default::default()
    };
    let mut batch = Batch::begin(&req).unwrap();
    loop {
        match batch.next() {
            Action::Start(i) => {
                let r = result_of(batch.step(i), batch.timeout_ms());
                batch.complete(i, r);
            }
            Action::Wait => unreachable!(),
            Action::Done => break,
        }
    }
    let file = artifact(&found("ok.log", 65_536), b"step1\n");
    let resp = batch.respond(1, Some(vec![file]));
    assert!(!resp.ok);
    assert_eq!(cli::exit_code(resp.ok), 1);
    let files = resp.artifacts.unwrap();
    assert_eq!(files.len(), 1);
    assert_eq!(files[0].content.as_deref(), Some("step1\n"));
}

#[test]
fn digests_are_exact() {
    let a = artifact(&found("x", 10), b"abc");
    assert_eq!(a.sha256, "ba7816bf8f01cfea414140de5dae2223b00361a396177a9cb410ff61f20015ad");
    let e = artifact(&found("x", 10), b"");
    assert_eq!(e.sha256, "e3b0c44298fc1c149afbf4c8996fb92427ae41e4649b934ca495991b7852b855");
    assert_eq!(e.content.as_deref(), Some(""));
    assert_eq!(hex(&[0x00, 0x9f, 0xa0, 0xff]), "009fa0ff");
    assert_eq!(describe(&found("x", 1), b"ab", &[1, 2]).sha256, "0102");
}

#[test]
fn files_below_the_limit_are_handed_back() {
    assert_eq!(artifact(&found("x", 4), b"abc").content.as_deref(), Some("abc"));
    let at = artifact(&found("x", 3), b"abc");
    assert_eq!(at.content, None);
    assert!(!at.inlined);
    let binary = artifact(&found("x", 10), &[0xff, 0x00]);
    assert_eq!(binary.content, None);
    assert_eq!(binary.size, 2);
    assert_eq!(artifact(&found("x", 10), "é".as_bytes()).content.as_deref(), Some("é"));
}

#[test]
fn patterns_name_files() {
    assert!(name_matches("*.txt", "a.txt"));
    assert!(name_matches("*.txt", ".txt"));
    assert!(!name_matches("*.txt", "a.txt.gz"));
    assert!(name_matches("a?c*", "abcdef"));
    assert!(!name_matches("a?c", "ac"));
    assert!(name_matches("*", ""));
    assert!(name_matches("**a**b", "xxaxxb"));
    assert!(!name_matches("**a**b", "xxbxxa"));
    assert!(name_matches("report.md", "report.md"));
    assert!(!name_matches("report.md", "report_md"));
    assert!(name_matches("", ""));
    assert!(!name_matches("", "a"));
    assert!(name_matches("*a*a*a*a*a*a*a*a*a*b", &format!("{}b", "a".repeat(200))));
    assert!(!name_matches("*a*a*a*a*a*a*a*a*a*b", &"a".repeat(200)));
    assert!(is_pattern("a*"));
    assert!(is_pattern("?"));
    assert!(!is_pattern("a.b"));
}

#[test]
fn paths_have_components() {
    assert_eq!(components("logs/*.txt"), vec!["logs", "*.txt"]);
    assert_eq!(components("./a//b/./c/"), vec!["a", "b", "c"]);
    assert_eq!(components("/"), Vec::<String>::new());
    assert_eq!(components(""), Vec::<String>::new());
    assert_eq!(components(".x/y."), vec![".x", "y."]);
}
