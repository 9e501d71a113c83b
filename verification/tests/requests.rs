//! Requests and the text around them: what is accepted, what is refused.

use shellaborate::dangerous_reason;
use shellaborate::gh_auth_error;
use shellaborate::mask_secrets;
use shellaborate::parse_git_stat;
use shellaborate::plan::list_dag;
use shellaborate::shell::segments;
use shellaborate::strip_cd_prefix;
use shellaborate::validate;
use shellaborate::BatchError;
use shellaborate::BatchRequest;
use shellaborate::CaptureSpec;
use shellaborate::Edge;
use shellaborate::GitStatLine;
use shellaborate::Step;
use shellaborate::MAX_COMMANDS;

fn step(cmd: &str) -> Step {
    Step {
        id: None,
        cmd: cmd.to_owned(),
        cwd: None,
        env: Vec::new(),
        timeout_ms: None,
        shell: None,
    }
}

fn sid(id: &str, cmd: &str) -> Step {
    Step { id: Some(id.to_owned()), ..step(cmd) }
}

fn edge(from: &str, to: &str) -> Edge {
    Edge { from: from.into(), to: to.into() }
}

fn refusal(req: &BatchRequest) -> String {
    match validate(req) {
        Ok(_) => panic!("accepted"),
        Err(e) => e.message(),
    }
}

#[test]
fn strip_cd() {
    let (cwd, rest) = strip_cd_prefix("cd /tmp && echo hi");
    assert_eq!(cwd.as_deref(), Some("/tmp"));
    assert_eq!(rest, "echo hi");
    let (cwd, rest) = strip_cd_prefix("echo a && cd /tmp && echo b");
    assert_eq!(cwd, None);
    assert_eq!(rest, "echo a && cd /tmp && echo b");
    let (cwd, rest) = strip_cd_prefix("cd 'my dir' && ls");
    assert_eq!(cwd.as_deref(), Some("my dir"));
    assert_eq!(rest, "ls");
}

#[test]
fn git_stat_parse() {
    let s = " src/lib.rs   | 12 ++++++-----\n README.md    |  2 +-\n 2 files changed, 8 insertions(+), 6 deletions(-)";
    let g = parse_git_stat(s).unwrap();
    assert_eq!(g.len(), 2);
    assert_eq!(g[0].path, "src/lib.rs");
    assert_eq!(g[0].changes, 12);
    assert_eq!(g[1].path, "README.md");
    assert!(parse_git_stat("no stat here").is_none());
}

#[test]
fn denylist_hits_and_misses() {
    assert!(dangerous_reason("rm -rf /").is_some());
    assert!(dangerous_reason("cd / && rm -rf /").is_some());
    assert!(dangerous_reason("echo hi && shutdown -h now").is_some());
    assert!(dangerous_reason("shutdown").is_some());
    assert!(dangerous_reason("mkfs.ext4 /dev/sda1").is_some());
    assert!(dangerous_reason("dd if=/dev/zero of=/dev/sda").is_some());
    assert!(dangerous_reason("echo shutdown").is_none());
    assert!(dangerous_reason("rm -rf ./build").is_none());
    assert!(dangerous_reason("echo hi").is_none());
}

#[test]
fn mask() {
    let m = mask_secrets("GH_TOKEN=ghp_abcdef\nhello");
    assert!(m.contains("§§§§§§§§"));
    assert!(m.contains("hello"));
    assert!(!m.contains("ghp_abcdef"));
    assert_eq!(mask_secrets("plain"), "plain\n");
}

#[test]
fn gh_auth_surfacing() {
    assert!(gh_auth_error("gh: To get started with GitHub CLI, please run: gh auth login").is_some());
    assert!(gh_auth_error("HTTP 401: Bad credentials").is_some());
    assert!(gh_auth_error("normal stderr").is_none());
}

#[test]
fn rejects_over_cap() {
    let steps: Vec<Step> = (0..=MAX_COMMANDS).map(|i| step(&format!("echo {i}"))).collect();
    let req = BatchRequest { steps, ..Default::default() };
    assert!(matches!(validate(&req), Err(BatchError::TooManyCommands(_))));
}

#[test]
fn rejects_cycle() {
    let req = BatchRequest {
        commands: vec![sid("a", "echo x"), sid("b", "echo y")],
        dag: vec![edge("a", "b"), edge("b", "a")],
        ..Default::default()
    };
    assert!(matches!(validate(&req), Err(BatchError::Cycle(_))));
}

#[test]
fn rejects_unknown_dep_and_dup_and_bad_shell() {
    let req = BatchRequest {
        steps: vec![step("echo x")],
        dag: vec![edge("0", "nope")],
        ..Default::default()
    };
    assert!(matches!(validate(&req), Err(BatchError::UnknownDep { .. })));
    let req = BatchRequest {
        commands: vec![sid("a", "echo x"), sid("a", "echo y")],
        ..Default::default()
    };
    assert!(matches!(validate(&req), Err(BatchError::DuplicateId(_))));
    let mut s = step("echo x");
    s.shell = Some("zsh".into());
    let req = BatchRequest { steps: vec![s], ..Default::default() };
    assert!(matches!(validate(&req), Err(BatchError::BadShell { .. })));
    assert!(matches!(validate(&BatchRequest::default()), Err(BatchError::Empty)));
}

#[test]
fn dangerous_needs_override() {
    let req = BatchRequest { steps: vec![step("rm -rf /")], ..Default::default() };
    assert!(matches!(validate(&req), Err(BatchError::Dangerous { .. })));
    let req2 = BatchRequest {
        steps: vec![step("rm -rf /")],
        allow_dangerous: true,
        ..Default::default()
    };
    assert!(validate(&req2).is_ok());
}

#[test]
fn denylist_rejects_and_override_allows() {
    let mut req = BatchRequest { steps: vec![step("rm -rf /")], ..Default::default() };
    assert!(refusal(&req).contains("denied by safety denylist"));
    shellaborate::cli::apply_flags(&mut req, true, &Vec::new());
    assert!(validate(&req).is_ok());
}

#[test]
fn audit_forkbomb_denied_by_denylist() {
    for cmd in [
        ":(){ :|:& };:",
        ":(){:|:&};:",
        ":(){:|: &};:",
        "echo x && bash -c \":(){ :|:& };:\"",
    ] {
        let req = BatchRequest { steps: vec![step(cmd)], ..Default::default() };
        assert!(refusal(&req).contains("forkbomb"), "{cmd}");
    }
    let mut req = BatchRequest { steps: vec![step(":(){ :|:& };:")], ..Default::default() };
    shellaborate::cli::apply_flags(&mut req, true, &Vec::new());
    assert!(validate(&req).is_ok());
}

#[test]
fn audit_cycle_detected_exit2() {
    let req = BatchRequest {
        commands: vec![sid("a", "echo a"), sid("b", "echo b")],
        dag: vec![edge("a", "b"), edge("b", "a")],
        ..Default::default()
    };
    assert!(refusal(&req).contains("cycle"));
    assert_eq!(shellaborate::cli::REQUEST_ERROR, 2);
}

#[test]
fn capture_traversal_via_cli_rejected() {
    let mut req = BatchRequest { steps: vec![step("echo x")], ..Default::default() };
    shellaborate::cli::apply_flags(&mut req, false, &vec!["../outside.txt".to_owned()]);
    assert!(refusal(&req).contains("traversal"));
    assert!(matches!(validate(&req), Err(BatchError::CaptureTraversal(_))));
}

#[test]
fn dry_run_prints_plan_without_executing() {
    let req = BatchRequest {
        commands: vec![
            sid("a", "touch /tmp/shellaborate-dryrun-marker"),
            sid("b", "echo b"),
        ],
        dag: vec![edge("a", "b")],
        ..Default::default()
    };
    let plan = shellaborate::plan(&req).unwrap();
    assert_eq!(plan.len(), 2);
    assert_eq!(plan[1].after, vec!["a".to_owned()]);
    assert_eq!(plan[0].after, Vec::<String>::new());
    assert_eq!(plan[0].cmd, "touch /tmp/shellaborate-dryrun-marker");
}

#[test]
fn list_dag_prints_dependency_graph() {
    let req = BatchRequest {
        commands: vec![sid("a", "echo a"), sid("b", "echo b"), sid("c", "echo c")],
        dag: vec![edge("a", "b"), edge("a", "c")],
        ..Default::default()
    };
    assert_eq!(
        list_dag(&req).unwrap(),
        "a\techo a\nb\techo b\t[after: a]\nc\techo c\t[after: a]\n"
    );
}

#[test]
fn refusals_say_why() {
    assert_eq!(refusal(&BatchRequest::default()), "empty request: provide `steps` or `commands`");
    let many = BatchRequest {
        steps: (0..51).map(|_| step("echo")).collect(),
        ..Default::default()
    };
    assert_eq!(refusal(&many), "too many commands: 51 > cap 50");
    let twice = BatchRequest {
        commands: vec![sid("a\"b", "echo x"), sid("a\"b", "echo y")],
        ..Default::default()
    };
    assert_eq!(refusal(&twice), "duplicate step id: \"a\\\"b\"");
    let unknown = BatchRequest {
        steps: vec![step("echo x")],
        dag: vec![edge("0", "nope")],
        ..Default::default()
    };
    assert_eq!(refusal(&unknown), "unknown dependency: edge \"0\" -> \"nope\"");
    let cycle = BatchRequest {
        commands: vec![sid("a", "x"), sid("b", "y"), sid("c", "z")],
        dag: vec![edge("a", "b"), edge("b", "a")],
        ..Default::default()
    };
    assert_eq!(refusal(&cycle), "dependency cycle involving: a, b");
    let mut s = step("echo x");
    s.shell = Some("zsh".into());
    let shell = BatchRequest { steps: vec![s], ..Default::default() };
    assert_eq!(refusal(&shell), "step \"0\": shell must be \"sh\" or \"bash\", got \"zsh\"");
    let denied = BatchRequest { steps: vec![step("reboot")], ..Default::default() };
    assert_eq!(
        refusal(&denied),
        "step \"0\": denied by safety denylist: reboot (pass --allow-dangerous to override)"
    );
    let climbs = BatchRequest {
        steps: vec![step("echo x")],
        capture: vec![CaptureSpec { path: "a/../b".into(), inline_max_bytes: None }],
        ..Default::default()
    };
    let backslash = BatchRequest {
        steps: vec![step("echo x")],
        capture: vec![CaptureSpec { path: "..\\b".into(), inline_max_bytes: None }],
        ..Default::default()
    };
    assert!(matches!(validate(&backslash), Err(BatchError::CaptureTraversal(_))));
    assert_eq!(refusal(&climbs), "capture \"a/../b\" contains '..' (path traversal rejected)");
}

#[test]
fn ids_and_edges_are_filled_in() {
    let req = BatchRequest {
        steps: vec![step("a"), sid("x", "b"), step("c")],
        ..Default::default()
    };
    let (steps, edges) = validate(&req).unwrap();
    let ids: Vec<Option<&str>> = steps.iter().map(|s| s.id.as_deref()).collect();
    assert_eq!(ids, vec![Some("0"), Some("x"), Some("2")]);
    assert_eq!(edges, vec![edge("0", "x"), edge("x", "2")]);
    let req = BatchRequest {
        steps: vec![step("ignored")],
        commands: vec![step("a"), step("b")],
        ..Default::default()
    };
    let (steps, edges) = validate(&req).unwrap();
    assert_eq!(steps.len(), 2);
    assert!(edges.is_empty());
    assert_eq!(req.flat_commands().len(), 2);
}

#[test]
fn exactly_the_cap_is_accepted() {
    let req = BatchRequest {
        steps: (0..50).map(|_| step("echo")).collect(),
        ..Default::default()
    };
    assert_eq!(validate(&req).unwrap().0.len(), 50);
}

#[test]
fn a_step_on_itself_is_a_cycle() {
    let req = BatchRequest {
        commands: vec![sid("a", "x"), sid("b", "y")],
        dag: vec![edge("a", "a")],
        ..Default::default()
    };
    assert_eq!(refusal(&req), "dependency cycle involving: a");
}

#[test]
fn repeated_edges_are_listed_once() {
    let req = BatchRequest {
        commands: vec![sid("a", "x"), sid("b", "y")],
        dag: vec![edge("a", "b"), edge("a", "b")],
        ..Default::default()
    };
    assert_eq!(list_dag(&req).unwrap(), "a\tx\nb\ty\t[after: a]\n");
    let plan = shellaborate::plan(&req).unwrap();
    assert_eq!(plan[1].after, vec!["a".to_owned(), "a".to_owned()]);
}

#[test]
fn denied_reasons() {
    let reason = |cmd: &str| dangerous_reason(cmd);
    assert_eq!(reason("rm -fR /*").as_deref(), Some("rm -rf /"));
    assert_eq!(reason("rm --recursive /").as_deref(), Some("rm -rf /"));
    assert_eq!(reason("rm --force /").as_deref(), None);
    assert_eq!(reason("rm /").as_deref(), None);
    assert_eq!(reason("halt").as_deref(), Some("halt"));
    assert_eq!(reason("poweroff now").as_deref(), Some("poweroff"));
    assert_eq!(reason("init 0").as_deref(), Some("init 0"));
    assert_eq!(reason("init 6").as_deref(), Some("init 6"));
    assert_eq!(reason("init 3").as_deref(), None);
    assert_eq!(reason("mkfs.ext4 /dev/sda1").as_deref(), Some("mkfs.ext4"));
    assert_eq!(reason("dd of=/dev/sda").as_deref(), Some("dd of=/dev/..."));
    assert_eq!(reason("dd of=/tmp/x").as_deref(), None);
    assert_eq!(reason("echo 'x; reboot'").as_deref(), None);
    assert_eq!(reason("echo x | reboot").as_deref(), Some("reboot"));
    assert_eq!(reason("echo x\nreboot").as_deref(), Some("reboot"));
    assert_eq!(reason("false || reboot").as_deref(), Some("reboot"));
    assert_eq!(reason("é; reboot").as_deref(), Some("reboot"));
    assert_eq!(reason("").as_deref(), None);
}

#[test]
fn harmless_parts_make_a_harmless_list() {
    assert_eq!(dangerous_reason(":(\n){:|:&};:"), None);
    assert_eq!(dangerous_reason(":()\n{:|:&};:"), None);
    assert_eq!(dangerous_reason(":( ){ : | :& };:"), None);
    assert_eq!(dangerous_reason("echo a && echo b | wc ; true || false\nls"), None);
    for sep in [" && ", " || ", " ; ", " | ", "\n"] {
        for a in ["echo a", "reboot", "echo 'x; y'", "rm -r /"] {
            for b in ["echo b", "halt", "mkfs /dev/sda"] {
                let list = format!("{a}{sep}{b}");
                let parts = dangerous_reason(a).or(dangerous_reason(b));
                assert_eq!(dangerous_reason(&list), parts, "{list}");
            }
        }
    }
}

#[test]
fn other_scripts_are_read_as_characters() {
    assert_eq!(dangerous_reason("rm -rf à/"), None);
    assert_eq!(dangerous_reason("rm -rf à /").as_deref(), Some("rm -rf /"));
    assert_eq!(dangerous_reason("mkfs.é /dev/sda").as_deref(), Some("mkfs.é"));
    assert_eq!(segments("é;ü"), vec![vec!['é'], vec!['ü']]);
}

#[test]
fn forkbombs_may_be_spaced() {
    for bomb in [":(){\t:|:\t&\t};:", "x=1 :() { : | : & } ; :", "echo ':(){ :|:& };:' | sh"] {
        assert_eq!(dangerous_reason(bomb).as_deref(), Some("forkbomb"), "{bomb}");
    }
}

#[test]
fn lists_are_split_and_quotations_are_not() {
    let split = |cmd: &str| -> Vec<String> {
        segments(cmd).iter().map(|s| s.iter().collect()).collect()
    };
    assert_eq!(split("a && b || c ; d | e"), vec!["a ", " b ", " c ", " d ", " e"]);
    assert_eq!(split("a\nb"), vec!["a", "b"]);
    assert_eq!(split("sleep 1 & echo x"), vec!["sleep 1  echo x"]);
    assert_eq!(split("'a; b && c'"), vec!["'a; b && c'"]);
    assert_eq!(split("\"it's | one\""), vec!["\"it's | one\""]);
    assert_eq!(split("'a' ; b"), vec!["'a' ", " b"]);
    assert_eq!(split(""), vec![""]);
}

#[test]
fn stat_rows_in_full() {
    let row = |path: &str, changes: u64, bar: &str| GitStatLine {
        path: path.to_owned(),
        changes,
        bar: bar.to_owned(),
    };
    assert_eq!(
        parse_git_stat(" a b.txt | 3 ++-\n c | 1 +\n").unwrap(),
        vec![row("a b.txt", 3, "++-"), row("c", 1, "+")]
    );
    assert_eq!(
        parse_git_stat(" src/changed.rs | 3 ++-").unwrap(),
        vec![row("src/changed.rs", 3, "++-")]
    );
    assert_eq!(
        parse_git_stat(" insertion_deletion.rs |  1 -\n 1 file changed, 1 deletion(-)").unwrap(),
        vec![row("insertion_deletion.rs", 1, "-")]
    );
    assert!(parse_git_stat(" 1 file changed, 1 insertion(+)\n").is_none());
    assert!(parse_git_stat(" a | 0 \n b | Bin 0 -> 5 bytes\n | 3 +\n c | 3").is_none());
    assert!(parse_git_stat("").is_none());
}

#[test]
fn sign_in_failures_in_full() {
    assert_eq!(
        gh_auth_error("please run gh auth login").unwrap(),
        "gh auth required: run `gh auth login` (token missing or expired)"
    );
    assert_eq!(
        gh_auth_error("Bad credentials").unwrap(),
        "gh auth invalid: token rejected (401) — refresh with `gh auth login`"
    );
}

#[test]
fn every_mark_of_a_secret_is_masked() {
    for mark in [
        "GH_TOKEN", "GITHUB_TOKEN", "HF_TOKEN", "OPENAI_API_KEY", "ANTHROPIC_API_KEY", "API_KEY",
        "SECRET", "PASSWORD", "AWS_SECRET_ACCESS_KEY", "PRIVATE KEY", "ghp_", "github_pat_",
        "xoxb-", "Bearer ", "MY_TOKEN",
    ] {
        let shown = mask_secrets(&format!("a\nx {mark} y\nb\n"));
        assert_eq!(shown, "a\n§§§§§§§§\nb\n", "{mark}");
        assert_eq!(mask_secrets(&shown), shown);
    }
    assert_eq!(mask_secrets(""), "");
    assert_eq!(mask_secrets("token=1\n\nx"), "token=1\n\nx\n");
}

#[test]
fn cd_prefixes() {
    let split = |cmd: &str| strip_cd_prefix(cmd);
    let some = |dir: &str, rest: &str| (Some(dir.to_owned()), rest.to_owned());
    let none = |rest: &str| (None, rest.to_owned());
    assert_eq!(split("cd \"a && b\" && ls"), some("a && b", "ls"));
    assert_eq!(split("  cd x &&   ls  "), some("x", "ls  "));
    assert_eq!(split("cd é && ls"), some("é", "ls"));
    assert_eq!(split("cd x; ls && pwd"), none("cd x; ls && pwd"));
    assert_eq!(split("cd `x` && ls"), none("cd `x` && ls"));
    assert_eq!(split("cd  && ls"), none("cd  && ls"));
    assert_eq!(split("cd x"), none("cd x"));
    assert_eq!(split("cdx && ls"), none("cdx && ls"));
    assert_eq!(split("cd x && a && b"), some("x", "a && b"));
}
