//! Updating the program from its published releases: what is fetched, and
//! what is accepted.

use vstd::prelude::*;
use crate::artifact;
use crate::outside;
use crate::text;

verus! {

// ---------- errors ----------

/// Why an update does not take place.
#[derive(Debug, Clone, PartialEq, Eq)]
pub enum UpdateError {
    Network(String),
    NoAsset(String),
    Checksum { expected: String, actual: String },
    Io(String),
    UpToDate(String),
}

/// The contents of an [`UpdateError`].
pub enum UpdateErrorModel {
    Network(Seq<char>),
    NoAsset(Seq<char>),
    Checksum { expected: Seq<char>, actual: Seq<char> },
    Io(Seq<char>),
    UpToDate(Seq<char>),
}

impl View for UpdateError {
    type V = UpdateErrorModel;

    open spec fn view(&self) -> UpdateErrorModel {
        match self {
            UpdateError::Network(e) => UpdateErrorModel::Network(e@),
            UpdateError::NoAsset(m) => UpdateErrorModel::NoAsset(m@),
            UpdateError::Checksum { expected, actual } => UpdateErrorModel::Checksum {
                expected: expected@,
                actual: actual@,
            },
            UpdateError::Io(e) => UpdateErrorModel::Io(e@),
            UpdateError::UpToDate(v) => UpdateErrorModel::UpToDate(v@),
        }
    }
}

impl UpdateErrorModel {
    /// The message of the error.
    pub open spec fn text(self) -> Seq<char> {
        match self {
            UpdateErrorModel::Network(e) => "network error: "@ + e,
            UpdateErrorModel::NoAsset(m) => m,
            UpdateErrorModel::Checksum { expected, actual } => "checksum mismatch: expected "@
                + expected + ", got "@ + actual,
            UpdateErrorModel::Io(e) => "I/O error: "@ + e,
            UpdateErrorModel::UpToDate(v) => "already up to date ("@ + v + ")"@,
        }
    }
}

impl UpdateError {
    /// The message of the error.
    pub fn message(&self) -> (r: String)
        ensures
            r@ == self@.text(),
    {
        match self {
            UpdateError::Network(e) => {
                let mut out = "network error: ".to_owned();
                out.append(e.as_str());
                out
            },
            UpdateError::NoAsset(m) => m.clone(),
            UpdateError::Checksum { expected, actual } => {
                let mut out = "checksum mismatch: expected ".to_owned();
                out.append(expected.as_str());
                out.append(", got ");
                out.append(actual.as_str());
                out
            },
            UpdateError::Io(e) => {
                let mut out = "I/O error: ".to_owned();
                out.append(e.as_str());
                out
            },
            UpdateError::UpToDate(v) => {
                let mut out = "already up to date (".to_owned();
                out.append(v.as_str());
                out.append(")");
                out
            },
        }
    }
}

// ---------- platforms and versions ----------

/// The target of the published build for an operating system and a
/// processor, if there is one.
pub open spec fn triple_of(os: Seq<char>, arch: Seq<char>) -> Option<Seq<char>> {
    if os == "linux"@ && arch == "x86_64"@ {
        Some("x86_64-unknown-linux-musl"@)
    } else if os == "linux"@ && arch == "aarch64"@ {
        Some("aarch64-unknown-linux-musl"@)
    } else if os == "macos"@ && arch == "x86_64"@ {
        Some("x86_64-apple-darwin"@)
    } else if os == "macos"@ && arch == "aarch64"@ {
        Some("aarch64-apple-darwin"@)
    } else if os == "windows"@ && arch == "x86_64"@ {
        Some("x86_64-pc-windows-msvc"@)
    } else {
        None
    }
}

/// The target of the published build for an operating system and a processor.
pub fn target_triple(os: &str, arch: &str) -> (r: Result<String, UpdateError>)
    ensures
        match r {
            Ok(t) => triple_of(os@, arch@) == Some(t@),
            Err(e) => triple_of(os@, arch@) is None && e@ == UpdateErrorModel::NoAsset(
                "no prebuilt asset for this platform; build from source instead"@,
            ),
        },
{
    let x86 = text::same_text(arch, "x86_64");
    let arm = text::same_text(arch, "aarch64");
    let linux = text::same_text(os, "linux");
    let mac = text::same_text(os, "macos");
    if linux && x86 {
        Ok("x86_64-unknown-linux-musl".to_owned())
    } else if linux && arm {
        Ok("aarch64-unknown-linux-musl".to_owned())
    } else if mac && x86 {
        Ok("x86_64-apple-darwin".to_owned())
    } else if mac && arm {
        Ok("aarch64-apple-darwin".to_owned())
    } else if text::same_text(os, "windows") && x86 {
        Ok("x86_64-pc-windows-msvc".to_owned())
    } else {
        Err(
            UpdateError::NoAsset(
                "no prebuilt asset for this platform; build from source instead".to_owned(),
            ),
        )
    }
}

/// The tag of a version: the version with a `v` in front.
pub open spec fn tag_of(v: Seq<char>) -> Seq<char> {
    if v.len() > 0 && v[0] == 'v' {
        v
    } else {
        "v"@ + v
    }
}

/// The tag of a version: the version with a `v` in front.
pub fn version_tag(v: &str) -> (r: String)
    ensures
        r@ == tag_of(v@),
{
    let cs = text::chars_of(v);
    if cs.len() > 0 && cs[0] == 'v' {
        v.to_owned()
    } else {
        let mut out = "v".to_owned();
        out.append(v);
        out
    }
}

/// The version that a tag names.
pub open spec fn version_of(tag: Seq<char>) -> Seq<char> {
    text::stripped_start(tag, 'v')
}

/// The target is Windows, whose archive is a zip file.
pub open spec fn is_windows(triple: Seq<char>) -> bool {
    triple == "x86_64-pc-windows-msvc"@
}

/// The tag of a version that does not begin with `v` names that version.
pub proof fn law_tag_names_version(v: Seq<char>)
    requires
        v.len() == 0 || v[0] != 'v',
    ensures
        version_of(tag_of(v)) == v,
{
    reveal_strlit("v");
    let t = tag_of(v);
    assert(t.drop_first() =~= v);
    assert(text::stripped_start(v, 'v') == v);
}

// ---------- what is fetched ----------

/// The program, its target and version, and the release that replaces it.
#[derive(Debug, Clone, PartialEq, Eq)]
pub struct Release {
    pub triple: String,
    pub current: String,
    pub tag: String,
    pub version: String,
}

/// The contents of a [`Release`].
pub struct ReleaseModel {
    pub triple: Seq<char>,
    pub current: Seq<char>,
    pub tag: Seq<char>,
    pub version: Seq<char>,
}

impl View for Release {
    type V = ReleaseModel;

    open spec fn view(&self) -> ReleaseModel {
        ReleaseModel {
            triple: self.triple@,
            current: self.current@,
            tag: self.tag@,
            version: self.version@,
        }
    }
}

impl ReleaseModel {
    /// The name of the release for its target, without an ending.
    pub open spec fn stem(self) -> Seq<char> {
        "agentic-shell-"@ + self.version + "-"@ + self.triple
    }

    /// The name of the archive.
    pub open spec fn archive(self) -> Seq<char> {
        self.stem() + (if is_windows(self.triple) {
            ".zip"@
        } else {
            ".tar.gz"@
        })
    }

    /// Where the files of the release are.
    pub open spec fn base(self) -> Seq<char> {
        "https://github.com/riceharvest/agentic-shell/releases/download/"@ + self.tag
    }

    /// Where the program stands in the archive.
    pub open spec fn member(self) -> Seq<char> {
        self.stem() + "/agentic-shell"@ + (if is_windows(self.triple) {
            ".exe"@
        } else {
            Seq::empty()
        })
    }
}

/// Where the latest release is described.
pub fn latest_url() -> (r: String)
    ensures
        r@ == "https://api.github.com/repos/riceharvest/agentic-shell/releases/latest"@,
{
    "https://api.github.com/repos/riceharvest/agentic-shell/releases/latest".to_owned()
}

/// The release that the tag names, for a program of the given target and
/// version; none where it is the program's own version.
pub fn choose_release(triple: &str, current: &str, tag: &str) -> (r: Result<Release, UpdateError>)
    ensures
        match r {
            Ok(x) => version_of(tag@) != current@ && x@ == (ReleaseModel {
                triple: triple@,
                current: current@,
                tag: tag@,
                version: version_of(tag@),
            }),
            Err(e) => version_of(tag@) == current@ && e@ == UpdateErrorModel::UpToDate(
                "agentic-shell v"@ + current@,
            ),
        },
{
    let ts = text::chars_of(tag);
    let version = text::string_of(text::strip_start(ts.as_slice(), 'v'));
    if text::same_text(version.as_str(), current) {
        let mut m = "agentic-shell v".to_owned();
        m.append(current);
        return Err(UpdateError::UpToDate(m));
    }
    Ok(
        Release {
            triple: triple.to_owned(),
            current: current.to_owned(),
            tag: tag.to_owned(),
            version,
        },
    )
}

impl Release {
    /// Whether the archive is a zip file.
    pub fn is_zip(&self) -> (r: bool)
        ensures
            r == is_windows(self@.triple),
    {
        text::same_text(self.triple.as_str(), "x86_64-pc-windows-msvc")
    }

    /// The name of the release for its target, without an ending.
    fn stem(&self) -> (r: String)
        ensures
            r@ == self@.stem(),
    {
        let mut out = "agentic-shell-".to_owned();
        out.append(self.version.as_str());
        out.append("-");
        out.append(self.triple.as_str());
        out
    }

    /// The name of the archive.
    pub fn archive(&self) -> (r: String)
        ensures
            r@ == self@.archive(),
    {
        let mut out = self.stem();
        if self.is_zip() {
            out.append(".zip");
        } else {
            out.append(".tar.gz");
        }
        out
    }

    /// Where the files of the release are.
    fn base(&self) -> (r: String)
        ensures
            r@ == self@.base(),
    {
        let mut out =
            "https://github.com/riceharvest/agentic-shell/releases/download/".to_owned();
        out.append(self.tag.as_str());
        out
    }

    /// Where the checksums of the release are.
    pub fn sums_url(&self) -> (r: String)
        ensures
            r@ == self@.base() + "/SHA256SUMS"@,
    {
        let mut out = self.base();
        out.append("/SHA256SUMS");
        out
    }

    /// Where the archive is.
    pub fn archive_url(&self) -> (r: String)
        ensures
            r@ == self@.base() + "/"@ + self@.archive(),
    {
        let mut out = self.base();
        out.append("/");
        out.append(self.archive().as_str());
        out
    }

    /// Where the program stands in the archive.
    pub fn member(&self) -> (r: String)
        ensures
            r@ == self@.member(),
    {
        let mut out = self.stem();
        out.append("/agentic-shell");
        if self.is_zip() {
            out.append(".exe");
        }
        assert(out@ =~= self@.member());
        out
    }

    /// What is said when the update has taken place.
    pub fn done_message(&self) -> (r: String)
        ensures
            r@ == "updated agentic-shell v"@ + self@.current + " -> v"@ + self@.version + " ("@
                + self@.triple + ")"@,
    {
        let mut out = "updated agentic-shell v".to_owned();
        out.append(self.current.as_str());
        out.append(" -> v");
        out.append(self.version.as_str());
        out.append(" (");
        out.append(self.triple.as_str());
        out.append(")");
        out
    }
}

// ---------- what is accepted ----------

/// The first of `lines` that holds `name`, if one does.
pub open spec fn first_with(lines: Seq<Seq<char>>, name: Seq<char>) -> Option<Seq<char>>
    decreases lines.len(),
{
    if lines.len() == 0 {
        None
    } else if text::has(lines[0], name) {
        Some(lines[0])
    } else {
        first_with(lines.drop_first(), name)
    }
}

/// The checksum that a list gives for an archive: the first word of the first
/// line that names it.
pub open spec fn listed(sums: Seq<char>, archive: Seq<char>) -> Option<Seq<char>> {
    match first_with(text::lines_of(sums), archive) {
        Some(line) => Some(text::first_word_of(line)),
        None => None,
    }
}

/// The checksum that a list gives for an archive.
pub fn expected_checksum(sums: &str, archive: &str) -> (r: Result<String, UpdateError>)
    ensures
        match r {
            Ok(c) => listed(sums@, archive@) == Some(c@),
            Err(e) => listed(sums@, archive@) is None && e@ == UpdateErrorModel::NoAsset(
                "no checksum for "@ + archive@,
            ),
        },
{
    let cs = text::chars_of(sums);
    let lines = text::lines(cs.as_slice());
    let ghost all = text::lines_of(sums@);
    let mut i: usize = 0;
    assert(all.skip(0) =~= all);
    while i < lines.len()
        invariant
            i <= lines@.len(),
            all == text::rows(lines@),
            all == text::lines_of(sums@),
            first_with(all, archive@) == first_with(all.skip(i as int), archive@),
        decreases lines@.len() - i,
    {
        proof {
            assert(all[i as int] == lines@[i as int]@);
            assert(all.skip(i as int).drop_first() =~= all.skip(i + 1));
        }
        let line = lines[i].as_slice();
        if text::contains_text(line, archive) {
            return Ok(text::string_of(text::first_word(line).as_slice()));
        }
        i += 1;
    }
    let mut m = "no checksum for ".to_owned();
    m.append(archive);
    Err(UpdateError::NoAsset(m))
}

/// What `first_with` gives is a line that holds the name.
proof fn lemma_first_with(lines: Seq<Seq<char>>, name: Seq<char>)
    requires
        first_with(lines, name) is Some,
    ensures
        exists|i: int|
            0 <= i < lines.len() && #[trigger] lines[i] == first_with(lines, name)->0 && text::has(
                lines[i],
                name,
            ),
    decreases lines.len(),
{
    if text::has(lines[0], name) {
        assert(lines[0] == first_with(lines, name)->0);
    } else {
        let rest = lines.drop_first();
        lemma_first_with(rest, name);
        let i = choose|i: int|
            0 <= i < rest.len() && #[trigger] rest[i] == first_with(rest, name)->0 && text::has(
                rest[i],
                name,
            );
        assert(lines[i + 1] == rest[i]);
    }
}

/// An archive that is accepted has its SHA-256 as the first word of a line of
/// the list that names it.
pub proof fn law_accepted_archive_is_listed(sums: Seq<char>, archive: Seq<char>, bytes: Seq<u8>)
    ensures
        acceptance(sums, archive, outside::sha256_of(bytes)) is Ok ==> exists|i: int|
            {
                &&& 0 <= i < text::lines_of(sums).len()
                &&& text::has(#[trigger] text::lines_of(sums)[i], archive)
                &&& text::first_word_of(text::lines_of(sums)[i]) == artifact::hex_of(
                    outside::sha256_of(bytes),
                )
            },
{
    if first_with(text::lines_of(sums), archive) is Some {
        lemma_first_with(text::lines_of(sums), archive);
    }
}

/// Compares a digest with the checksum that is expected of it.
pub fn compare_digest(digest: &[u8], expected: &str) -> (r: Result<(), UpdateError>)
    ensures
        match r {
            Ok(_) => artifact::hex_of(digest@) == expected@,
            Err(e) => artifact::hex_of(digest@) != expected@ && e@ == (UpdateErrorModel::Checksum {
                expected: expected@,
                actual: artifact::hex_of(digest@),
            }),
        },
{
    let actual = artifact::hex(digest);
    if text::same_text(actual.as_str(), expected) {
        Ok(())
    } else {
        Err(UpdateError::Checksum { expected: expected.to_owned(), actual })
    }
}

/// What becomes of an archive with the given digest: it is accepted where the
/// list gives that digest for it, and refused where the list gives another or
/// none.
pub open spec fn acceptance(sums: Seq<char>, archive: Seq<char>, digest: Seq<u8>) -> Result<
    (),
    UpdateErrorModel,
> {
    match listed(sums, archive) {
        None => Err(UpdateErrorModel::NoAsset("no checksum for "@ + archive)),
        Some(expected) => if artifact::hex_of(digest) == expected {
            Ok(())
        } else {
            Err(UpdateErrorModel::Checksum { expected, actual: artifact::hex_of(digest) })
        },
    }
}

/// Holds an archive with the given digest to the list of checksums.
pub fn accept_digest(sums: &str, archive: &str, digest: &[u8]) -> (r: Result<(), UpdateError>)
    ensures
        match r {
            Ok(_) => acceptance(sums@, archive@, digest@) is Ok,
            Err(e) => acceptance(sums@, archive@, digest@) == Err::<(), UpdateErrorModel>(e@),
        },
{
    match expected_checksum(sums, archive) {
        Ok(expected) => compare_digest(digest, expected.as_str()),
        Err(e) => Err(e),
    }
}

/// Accepts an archive exactly where the first line of the list that names it
/// begins with its SHA-256.
pub fn accept(sums: &str, archive: &str, bytes: &[u8]) -> (r: Result<(), UpdateError>)
    ensures
        match r {
            Ok(_) => acceptance(sums@, archive@, outside::sha256_of(bytes@)) is Ok,
            Err(e) => acceptance(sums@, archive@, outside::sha256_of(bytes@)) == Err::<
                (),
                UpdateErrorModel,
            >(e@),
        },
{
    let digest = outside::sha256(bytes);
    accept_digest(sums, archive, digest.as_slice())
}

/// A compressed archive as it unpacks: its bytes and, where it cannot be read
/// to its end, the error that comes behind them. A tar file may end in front
/// of the error; that is for its reader to say.
#[derive(Debug, Clone, PartialEq, Eq)]
pub struct Unpacked {
    pub bytes: Vec<u8>,
    pub error: Option<UpdateError>,
}

/// What the outcome of a decompression is to an update.
pub fn unpacked(outcome: (Vec<u8>, Option<String>)) -> (r: Unpacked)
    ensures
        r.bytes@ == outcome.0@,
        match outcome.1 {
            None => r.error is None,
            Some(m) => r.error matches Some(e) && e@ == UpdateErrorModel::Io(m@),
        },
{
    let error = match outcome.1 {
        None => None,
        Some(m) => Some(UpdateError::Io(m)),
    };
    Unpacked { bytes: outcome.0, error }
}

/// The tar file in a compressed archive.
pub fn decompress(archive: &[u8]) -> (r: Unpacked)
    ensures
        match r.error {
            None => outside::gunzip_of(archive@) == Ok::<Seq<u8>, Seq<char>>(r.bytes@),
            Some(e) => e@ is Io && outside::gunzip_of(archive@) == Err::<Seq<u8>, Seq<char>>(
                e@->Io_0,
            ),
        },
{
    unpacked(outside::gunzip(archive))
}

/// The tar file in a compressed archive, which is unpacked only where it is
/// accepted.
pub fn unpack_accepted(sums: &str, archive: &str, bytes: &[u8]) -> (r: Result<
    Unpacked,
    UpdateError,
>)
    ensures
        match r {
            Ok(u) => {
                &&& acceptance(sums@, archive@, outside::sha256_of(bytes@)) is Ok
                &&& match u.error {
                    None => outside::gunzip_of(bytes@) == Ok::<Seq<u8>, Seq<char>>(u.bytes@),
                    Some(e) => e@ is Io && outside::gunzip_of(bytes@) == Err::<
                        Seq<u8>,
                        Seq<char>,
                    >(e@->Io_0),
                }
            },
            Err(e) => acceptance(sums@, archive@, outside::sha256_of(bytes@)) == Err::<
                (),
                UpdateErrorModel,
            >(e@),
        },
{
    match accept(sums, archive, bytes) {
        Ok(_) => Ok(decompress(bytes)),
        Err(e) => Err(e),
    }
}

} // verus!
