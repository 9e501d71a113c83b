//! What holds of every release that replaces the program.

use vstd::prelude::*;
use crate::artifact;
use crate::text;
use crate::text_laws;
use crate::update;
use crate::update::ReleaseModel;
use crate::update::UpdateErrorModel;

verus! {

/// There are releases for Linux and macOS on two machines and for Windows on
/// one. The target is named by the machine and then the system.
pub proof fn law_targets(os: Seq<char>, arch: Seq<char>)
    ensures
        update::triple_of(os, arch) == if os == "linux"@ && (arch == "x86_64"@ || arch
            == "aarch64"@) {
            Some(arch + "-unknown-linux-musl"@)
        } else if os == "macos"@ && (arch == "x86_64"@ || arch == "aarch64"@) {
            Some(arch + "-apple-darwin"@)
        } else if os == "windows"@ && arch == "x86_64"@ {
            Some(arch + "-pc-windows-msvc"@)
        } else {
            None
        },
        update::triple_of(os, arch) matches Some(t) ==> (update::is_windows(t) <==> os
            == "windows"@),
{
    reveal_strlit("linux");
    reveal_strlit("macos");
    reveal_strlit("windows");
    reveal_strlit("x86_64");
    reveal_strlit("aarch64");
    reveal_strlit("-unknown-linux-musl");
    reveal_strlit("-apple-darwin");
    reveal_strlit("-pc-windows-msvc");
    reveal_strlit("x86_64-unknown-linux-musl");
    reveal_strlit("aarch64-unknown-linux-musl");
    reveal_strlit("x86_64-apple-darwin");
    reveal_strlit("aarch64-apple-darwin");
    reveal_strlit("x86_64-pc-windows-msvc");
    assert("x86_64"@ + "-unknown-linux-musl"@ =~= "x86_64-unknown-linux-musl"@);
    assert("aarch64"@ + "-unknown-linux-musl"@ =~= "aarch64-unknown-linux-musl"@);
    assert("x86_64"@ + "-apple-darwin"@ =~= "x86_64-apple-darwin"@);
    assert("aarch64"@ + "-apple-darwin"@ =~= "aarch64-apple-darwin"@);
    assert("x86_64"@ + "-pc-windows-msvc"@ =~= "x86_64-pc-windows-msvc"@);
    assert("x86_64-pc-windows-msvc"@.len() == 22);
    assert("x86_64-unknown-linux-musl"@.len() == 25);
    assert("aarch64-unknown-linux-musl"@.len() == 26);
    assert("x86_64-apple-darwin"@.len() == 19);
    assert("aarch64-apple-darwin"@.len() == 20);
    assert("linux"@.len() == 5 && "macos"@.len() == 5 && "windows"@.len() == 7);
    assert("linux"@[0] == 'l' && "macos"@[0] == 'm');
}

/// The tag of a version is the version with one `v` in front, which it may
/// have already; the version of a tag is the tag without any in front.
pub proof fn law_tags(v: Seq<char>, l: Seq<char>)
    requires
        v.len() == 0 || v[0] != 'v',
        forall|i: int| 0 <= i < l.len() ==> #[trigger] l[i] == 'v',
    ensures
        update::tag_of(v) == seq!['v'] + v,
        l.len() > 0 ==> update::tag_of(l + v) == l + v,
        update::version_of(l + v) == v,
{
    reveal_strlit("v");
    assert("v"@ =~= seq!['v']);
    if l.len() > 0 {
        assert((l + v)[0] == l[0]);
    }
    text_laws::law_stripped_start(l, v, 'v');
}

/// The files of a release: an archive under its tag, named by version and
/// target, and in it the program.
pub proof fn law_files_of_a_release(r: ReleaseModel)
    ensures
        ({
            let stem = "agentic-shell-"@ + r.version + "-"@ + r.triple;
            let windows = r.triple == "x86_64-pc-windows-msvc"@;
            &&& windows ==> r.archive() == stem + ".zip"@
            &&& !windows ==> r.archive() == stem + ".tar.gz"@
            &&& windows ==> r.member() == stem + "/agentic-shell"@ + ".exe"@
            &&& !windows ==> r.member() == stem + "/agentic-shell"@
            &&& r.base() == "https://github.com/riceharvest/agentic-shell/releases/download/"@
                + r.tag
        }),
{
    let stem = "agentic-shell-"@ + r.version + "-"@ + r.triple;
    assert(stem + "/agentic-shell"@ + Seq::<char>::empty() =~= stem + "/agentic-shell"@);
}

/// The checksum of an archive is the first word of the first line of the list
/// that names it; where none does, there is none.
pub proof fn law_checksum_is_on_the_first_line(sums: Seq<char>, archive: Seq<char>, k: int)
    requires
        0 <= k <= text::lines_of(sums).len(),
        forall|j: int|
            0 <= j < k ==> !text::has(#[trigger] text::lines_of(sums)[j], archive),
        k < text::lines_of(sums).len() ==> text::has(text::lines_of(sums)[k], archive),
    ensures
        update::listed(sums, archive) == if k < text::lines_of(sums).len() {
            Some(text::first_word_of(text::lines_of(sums)[k]))
        } else {
            None
        },
{
    lemma_first_line(text::lines_of(sums), archive, k);
}

/// The first line with a name in it.
proof fn lemma_first_line(lines: Seq<Seq<char>>, name: Seq<char>, k: int)
    requires
        0 <= k <= lines.len(),
        forall|j: int| 0 <= j < k ==> !text::has(#[trigger] lines[j], name),
        k < lines.len() ==> text::has(lines[k], name),
    ensures
        update::first_with(lines, name) == if k < lines.len() {
            Some(lines[k])
        } else {
            None
        },
    decreases lines.len(),
{
    if k > 0 {
        let t = lines.drop_first();
        assert(!text::has(lines[0], name));
        assert forall|j: int| 0 <= j < k - 1 implies !text::has(#[trigger] t[j], name) by {
            assert(t[j] == lines[j + 1]);
        }
        lemma_first_line(t, name, k - 1);
    }
}

/// An archive is accepted exactly where it is listed with the digits of its
/// digest; the refusal names the archive, or both checksums.
pub proof fn law_accepted_exactly(sums: Seq<char>, archive: Seq<char>, digest: Seq<u8>)
    ensures
        ({
            let r = update::acceptance(sums, archive, digest);
            let actual = artifact::hex_of(digest);
            &&& r is Ok <==> update::listed(sums, archive) == Some(actual)
            &&& update::listed(sums, archive) is None ==> r == Err::<(), UpdateErrorModel>(
                UpdateErrorModel::NoAsset("no checksum for "@ + archive),
            )
            &&& update::listed(sums, archive) matches Some(x) ==> (x != actual ==> r == Err::<
                (),
                UpdateErrorModel,
            >(UpdateErrorModel::Checksum { expected: x, actual }))
        }),
{
}

/// What is said about an update that did not happen.
pub proof fn law_messages(e: UpdateErrorModel)
    ensures
        e matches UpdateErrorModel::Network(m) ==> e.text() == "network error: "@ + m,
        e matches UpdateErrorModel::NoAsset(m) ==> e.text() == m,
        e matches UpdateErrorModel::Checksum { expected, actual } ==> e.text()
            == "checksum mismatch: expected "@ + expected + ", got "@ + actual,
        e matches UpdateErrorModel::Io(m) ==> e.text() == "I/O error: "@ + m,
        e matches UpdateErrorModel::UpToDate(v) ==> e.text() == "already up to date ("@ + v + ")"@,
{
}

} // verus!
