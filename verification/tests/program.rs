//! The program around the batch: its command line and its updates.

use flate2::write::GzEncoder;
use flate2::Compression;
use shellaborate::artifact::artifact;
use shellaborate::artifact::Found;
use shellaborate::cli;
use shellaborate::cli::Emit;
use shellaborate::cli::Mode;
use shellaborate::cli::Notice;
use shellaborate::text;
use shellaborate::update::accept;
use shellaborate::update::accept_digest;
use shellaborate::update::choose_release;
use shellaborate::update::compare_digest;
use shellaborate::update::decompress;
use shellaborate::update::expected_checksum;
use shellaborate::update::latest_url;
use shellaborate::update::target_triple;
use shellaborate::update::unpack_accepted;
use shellaborate::update::unpacked;
use shellaborate::update::version_tag;
use shellaborate::update::Unpacked;
use shellaborate::update::UpdateError;
use std::io::Write;

#[test]
fn emit_hermes_tool_and_man_and_completions() {
    assert_eq!(cli::emit_target("hermes-tool.json"), Ok(Emit::Schema));
    assert_eq!(cli::emit_target("man"), Ok(Emit::Man));
    assert_eq!(cli::emit_target("bash"), Ok(Emit::Bash));
    assert_eq!(cli::emit_target("zsh"), Ok(Emit::Zsh));
    assert_eq!(cli::emit_target("fish"), Ok(Emit::Fish));
    assert_eq!(
        cli::emit_target("a\"b"),
        Err("unknown --emit target \"a\\\"b\" (supported: hermes-tool.json, man, bash, zsh, fish)"
            .to_owned())
    );
    assert_eq!(
        cli::unknown_target("X"),
        "unknown --emit target X (supported: hermes-tool.json, man, bash, zsh, fish)"
    );
}

#[test]
fn a_plan_comes_before_a_graph_and_a_run() {
    assert_eq!(cli::mode(true, true), Mode::DryRun);
    assert_eq!(cli::mode(false, true), Mode::ListDag);
    assert_eq!(cli::mode(false, false), Mode::Run);
    assert!(cli::reads_stdin("-"));
    assert!(!cli::reads_stdin("request.json"));
}

#[test]
fn targets() {
    let target = |os: &str, arch: &str| target_triple(os, arch);
    assert_eq!(target("linux", "x86_64"), Ok("x86_64-unknown-linux-musl".to_owned()));
    assert_eq!(target("linux", "aarch64"), Ok("aarch64-unknown-linux-musl".to_owned()));
    assert_eq!(target("macos", "x86_64"), Ok("x86_64-apple-darwin".to_owned()));
    assert_eq!(target("macos", "aarch64"), Ok("aarch64-apple-darwin".to_owned()));
    assert_eq!(target("windows", "x86_64"), Ok("x86_64-pc-windows-msvc".to_owned()));
    let e = target("windows", "aarch64").unwrap_err();
    assert_eq!(
        e.message(),
        "no prebuilt asset for this platform; build from source instead"
    );
}

#[test]
fn releases() {
    assert_eq!(version_tag("1.2"), "v1.2");
    assert_eq!(version_tag("v1.2"), "v1.2");
    assert_eq!(choose_release("t", "1.1", &version_tag("1.2")).unwrap().version, "1.2");
    assert_eq!(
        latest_url(),
        "https://api.github.com/repos/riceharvest/agentic-shell/releases/latest"
    );
    let r = choose_release("x86_64-apple-darwin", "0.1.0", "v0.2.0").unwrap();
    assert_eq!(r.version, "0.2.0");
    assert_eq!(r.archive(), "agentic-shell-0.2.0-x86_64-apple-darwin.tar.gz");
    assert!(!r.is_zip());
    assert_eq!(
        r.sums_url(),
        "https://github.com/riceharvest/agentic-shell/releases/download/v0.2.0/SHA256SUMS"
    );
    assert_eq!(
        r.archive_url(),
        "https://github.com/riceharvest/agentic-shell/releases/download/v0.2.0/agentic-shell-0.2.0-x86_64-apple-darwin.tar.gz"
    );
    assert_eq!(r.member(), "agentic-shell-0.2.0-x86_64-apple-darwin/agentic-shell");
    assert_eq!(
        r.done_message(),
        "updated agentic-shell v0.1.0 -> v0.2.0 (x86_64-apple-darwin)"
    );
    let w = choose_release("x86_64-pc-windows-msvc", "0.1.0", "vv1").unwrap();
    assert!(w.is_zip());
    assert_eq!(w.archive(), "agentic-shell-1-x86_64-pc-windows-msvc.zip");
    assert_eq!(w.member(), "agentic-shell-1-x86_64-pc-windows-msvc/agentic-shell.exe");
    let same = choose_release("x86_64-apple-darwin", "0.1.0", "v0.1.0").unwrap_err();
    assert_eq!(same, UpdateError::UpToDate("agentic-shell v0.1.0".to_owned()));
    assert_eq!(same.message(), "already up to date (agentic-shell v0.1.0)");
}

#[test]
fn checksums() {
    let sums = "aa  other.tar.gz\r\n  bb  x.tar.gz\ncc  x.tar.gz\n";
    assert_eq!(expected_checksum(sums, "x.tar.gz"), Ok("bb".to_owned()));
    let missing = expected_checksum(sums, "y.zip").unwrap_err();
    assert_eq!(missing, UpdateError::NoAsset("no checksum for y.zip".to_owned()));
    let digest = "ba7816bf8f01cfea414140de5dae2223b00361a396177a9cb410ff61f20015ad";
    assert_eq!(accept(&format!("{digest}  x.tar.gz\n"), "x.tar.gz", b"abc"), Ok(()));
    let e = accept(sums, "x.tar.gz", b"abc").unwrap_err();
    assert_eq!(e.message(), format!("checksum mismatch: expected bb, got {digest}"));
    assert_eq!(
        accept(sums, "y.zip", b"abc"),
        Err(UpdateError::NoAsset("no checksum for y.zip".to_owned()))
    );
    assert_eq!(accept_digest(sums, "x.tar.gz", &[0xbb]), Ok(()));
    assert_eq!(
        accept_digest(sums, "other", &[0xbb]),
        Err(UpdateError::Checksum { expected: "aa".to_owned(), actual: "bb".to_owned() })
    );
    assert_eq!(compare_digest(&[0x0b, 0xb0], "0bb0"), Ok(()));
    assert_eq!(
        compare_digest(&[1], "BB"),
        Err(UpdateError::Checksum { expected: "BB".to_owned(), actual: "01".to_owned() })
    );
}

#[test]
fn archives_are_decompressed() {
    let mut encoder = GzEncoder::new(Vec::new(), Compression::default());
    encoder.write_all(b"the tar file").unwrap();
    let archive = encoder.finish().unwrap();
    let whole = decompress(&archive);
    assert_eq!(whole, Unpacked { bytes: b"the tar file".to_vec(), error: None });
    let digest = artifact(&Found { path: String::new(), limit: 0 }, &archive).sha256;
    let sums = format!("{digest}  a.tar.gz\n{digest}0  b.tar.gz\n");
    assert_eq!(unpack_accepted(&sums, "a.tar.gz", &archive), Ok(whole));
    assert_eq!(
        unpack_accepted(&sums, "b.tar.gz", &archive),
        Err(UpdateError::Checksum { expected: format!("{digest}0"), actual: digest })
    );
    assert!(matches!(unpack_accepted(&sums, "c.tar.gz", &archive), Err(UpdateError::NoAsset(_))));
    let none = decompress(b"not an archive");
    assert!(none.bytes.is_empty());
    assert!(none.error.unwrap().message().starts_with("I/O error: "));
    let mut damaged = archive.clone();
    let n = damaged.len();
    damaged[n - 8] ^= 1;
    let trailer = decompress(&damaged);
    assert_eq!(trailer.bytes, b"the tar file");
    assert!(matches!(trailer.error, Some(UpdateError::Io(_))));
    assert!(decompress(&archive[..n - 4]).error.is_some());
    assert_eq!(
        unpacked((vec![1, 2], Some("broken".to_owned()))),
        Unpacked { bytes: vec![1, 2], error: Some(UpdateError::Io("broken".to_owned())) }
    );
}

#[test]
fn updates_are_announced() {
    assert_eq!(
        cli::update_notice(Ok("updated".to_owned())),
        Notice::Success("updated".to_owned())
    );
    assert_eq!(
        cli::update_notice(Err(UpdateError::UpToDate("agentic-shell v1".to_owned()))),
        Notice::Success("agentic-shell v1".to_owned())
    );
    assert_eq!(
        cli::update_notice(Err(UpdateError::Network("down".to_owned()))),
        Notice::Failure("shellaborate update: network error: down".to_owned())
    );
}

#[test]
fn white_space_is_that_of_unicode() {
    for n in 0..=0x10_ffffu32 {
        if let Some(c) = char::from_u32(n) {
            assert_eq!(text::space(c), c.is_whitespace(), "{n:x}");
        }
    }
}

#[test]
fn text_agrees_with_the_standard_library() {
    for s in ["", " ", "a", " a b ", "a\r\nb\n", "\n\n", "a\r", "x\u{a0}y\u{3000}z", "\ta\t"] {
        let cs = text::chars_of(s);
        assert_eq!(text::string_of(text::trim(&cs)), s.trim(), "{s:?}");
        assert_eq!(text::string_of(text::trim_start(&cs)), s.trim_start(), "{s:?}");
        let words: Vec<String> = text::words(&cs).iter().map(|w| text::string_of(w)).collect();
        assert_eq!(words, s.split_whitespace().collect::<Vec<_>>(), "{s:?}");
        let lines: Vec<String> = text::lines(&cs).iter().map(|l| text::string_of(l)).collect();
        assert_eq!(lines, s.lines().collect::<Vec<_>>(), "{s:?}");
    }
    for s in ["0", "12", "+7", "-1", "", "+", "18446744073709551615", "18446744073709551616", "1a"] {
        assert_eq!(text::parse_number(&text::chars_of(s)), s.parse::<u64>().ok(), "{s:?}");
    }
    for n in [0u64, 9, 10, 99, 12345, u64::MAX] {
        assert_eq!(text::decimal(n), n.to_string());
    }
}
