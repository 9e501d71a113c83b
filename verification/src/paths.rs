//! Paths as text, as each system writes them.

use vstd::prelude::*;
use vstd::slice::slice_subrange;
use crate::text;

verus! {

/// How a system writes paths.
#[derive(Debug, Clone, Copy, PartialEq, Eq, Structural)]
pub enum Style {
    /// With `/` between the components.
    Unix,
    /// With `/` or a backslash between the components, and in front of them a
    /// prefix where there is one: a drive, a share, a device, or a verbatim
    /// prefix, behind which only a backslash separates.
    Windows,
}

/// `c` separates components.
pub open spec fn is_separator(c: char, style: Style) -> bool {
    c == '/' || (style == Style::Windows && c == '\\')
}

/// `c` separates components, in a verbatim path or another.
pub open spec fn separates(c: char, style: Style, verbatim: bool) -> bool {
    if verbatim {
        c == '\\'
    } else {
        is_separator(c, style)
    }
}

/// Where the component that begins at `i` ends: at the first separator from
/// there on, or at the end of the path.
pub open spec fn component_end(path: Seq<char>, i: int, style: Style, verbatim: bool) -> int
    decreases path.len() - i,
{
    if i >= path.len() {
        path.len() as int
    } else if separates(path[i], style, verbatim) {
        i
    } else {
        component_end(path, i + 1, style, verbatim)
    }
}

// ---------- prefixes ----------

/// A drive letter and a colon stand at `i`.
pub open spec fn drive_at(path: Seq<char>, i: int) -> bool {
    &&& 0 <= i
    &&& i + 2 <= path.len()
    &&& (('a' <= path[i] && path[i] <= 'z') || ('A' <= path[i] && path[i] <= 'Z'))
    &&& path[i + 1] == ':'
}

/// The prefix of `path` is a drive, as in `C:`.
pub open spec fn has_drive(path: Seq<char>, style: Style) -> bool {
    style == Style::Windows && drive_at(path, 0)
}

/// `path` is verbatim: it begins with two backslashes, a question mark and a
/// backslash.
pub open spec fn is_verbatim(path: Seq<char>, style: Style) -> bool {
    &&& style == Style::Windows
    &&& path.len() >= 4
    &&& path[0] == '\\'
    &&& path[1] == '\\'
    &&& path[2] == '?'
    &&& path[3] == '\\'
}

/// Where a prefix of two names ends, the first of which begins at `i`; the
/// second may be missing.
pub open spec fn share_end(path: Seq<char>, i: int, verbatim: bool) -> int {
    let server = component_end(path, i, Style::Windows, verbatim);
    let share = component_end(path, server + 1, Style::Windows, verbatim);
    if share > server + 1 {
        share
    } else {
        server
    }
}

/// How long the prefix of a verbatim path is: that of a share behind `UNC`,
/// that of a drive, or that of the first name.
pub open spec fn verbatim_len(path: Seq<char>) -> int {
    if path.len() >= 8 && path[4] == 'U' && path[5] == 'N' && path[6] == 'C' && is_separator(
        path[7],
        Style::Windows,
    ) {
        share_end(path, 8, true)
    } else if drive_at(path, 4) && (path.len() == 6 || is_separator(path[6], Style::Windows)) {
        6
    } else {
        component_end(path, 4, Style::Windows, true)
    }
}

/// How long the prefix of a path is that begins with two separators and is not
/// verbatim: that of a device behind `.`, or that of a share whose names are
/// both there.
pub open spec fn network_len(path: Seq<char>) -> int {
    let server = component_end(path, 2, Style::Windows, false);
    if path.len() >= 4 && path[2] == '.' && is_separator(path[3], Style::Windows) {
        component_end(path, 4, Style::Windows, false)
    } else if server > 2 && share_end(path, 2, false) > server {
        share_end(path, 2, false)
    } else {
        0
    }
}

/// How long the prefix of `path` is; zero where there is none.
pub open spec fn prefix_len(path: Seq<char>, style: Style) -> int {
    if style == Style::Unix {
        0
    } else if is_verbatim(path, style) {
        verbatim_len(path)
    } else if path.len() >= 2 && is_separator(path[0], style) && is_separator(path[1], style) {
        network_len(path)
    } else if drive_at(path, 0) {
        2
    } else {
        0
    }
}

// ---------- climbing ----------

/// Behind its prefix, `path` begins with a separator.
pub open spec fn has_root(path: Seq<char>, style: Style) -> bool {
    let n = prefix_len(path, style);
    n < path.len() && is_separator(path[n], style)
}

/// A component of `path` begins at `i`, behind its prefix.
pub open spec fn begins_component(path: Seq<char>, i: int, style: Style) -> bool {
    let n = prefix_len(path, style);
    ||| i == n
    ||| i == n + 1 && has_root(path, style)
    ||| i > n && separates(path[i - 1], style, is_verbatim(path, style))
}

/// The component of `path` at `i` is `..`.
pub open spec fn parent_at(path: Seq<char>, i: int, style: Style) -> bool {
    &&& 0 <= i
    &&& i + 2 <= path.len()
    &&& path[i] == '.'
    &&& path[i + 1] == '.'
    &&& begins_component(path, i, style)
    &&& i + 2 == path.len() || separates(path[i + 2], style, is_verbatim(path, style))
}

/// A component of `path` is `..`.
pub open spec fn has_parent(path: Seq<char>, style: Style) -> bool {
    exists|i: int| parent_at(path, i, style)
}

/// A component of `path` is `..` on some system.
pub open spec fn may_climb(path: Seq<char>) -> bool {
    has_parent(path, Style::Unix) || has_parent(path, Style::Windows)
}

// ---------- joining ----------

/// What is written between two components.
pub open spec fn main_separator(style: Style) -> char {
    match style {
        Style::Unix => '/',
        Style::Windows => '\\',
    }
}

/// The components of `path` from `i` on, as they are written.
pub open spec fn pieces(path: Seq<char>, i: int, style: Style, verbatim: bool) -> Seq<Seq<char>>
    decreases path.len() - i,
{
    if i >= path.len() {
        Seq::empty()
    } else {
        proof {
            lemma_component_end(path, i, style, verbatim);
        }
        let e = component_end(path, i, style, verbatim);
        let rest = if e < path.len() {
            pieces(path, e + 1, style, verbatim)
        } else {
            Seq::empty()
        };
        if e > i {
            seq![path.subrange(i, e)] + rest
        } else {
            rest
        }
    }
}

/// `names` without those that are `.`.
pub open spec fn without_dots(names: Seq<Seq<char>>) -> Seq<Seq<char>>
    decreases names.len(),
{
    if names.len() == 0 {
        Seq::empty()
    } else if names.last() == "."@ {
        without_dots(names.drop_last())
    } else {
        without_dots(names.drop_last()).push(names.last())
    }
}

/// Where the components of a verbatim directory begin.
pub open spec fn body_start(base: Seq<char>) -> int {
    prefix_len(base, Style::Windows) + if has_root(base, Style::Windows) {
        1int
    } else {
        0int
    }
}

/// The components of `path` counted from the verbatim directory `base`.
pub open spec fn verbatim_names(base: Seq<char>, path: Seq<char>) -> Seq<Seq<char>> {
    let own = without_dots(pieces(path, 0, Style::Windows, false));
    if has_root(path, Style::Windows) {
        own
    } else {
        pieces(base, body_start(base), Style::Windows, true) + own
    }
}

/// `path` counted from the verbatim directory `base`: its components are
/// written behind the prefix, each behind a backslash.
pub open spec fn verbatim_from(base: Seq<char>, path: Seq<char>) -> Seq<char> {
    let prefix = base.take(prefix_len(base, Style::Windows));
    let names = verbatim_names(base, path);
    let rooted = has_root(path, Style::Windows) || has_root(base, Style::Windows);
    if rooted || names.len() > 0 {
        prefix + seq!['\\'] + text::joined(names, seq!['\\'])
    } else {
        prefix
    }
}

/// A separator has to stand between `base` and what is counted from it. None
/// does behind a drive by itself.
pub open spec fn needs_separator(base: Seq<char>, style: Style) -> bool {
    &&& base.len() > 0
    &&& !is_separator(base.last(), style)
    &&& !(has_drive(base, style) && base.len() == 2)
}

/// `path` counted from the directory `base`. A path with a prefix is itself;
/// one with a root alone keeps the prefix of `base`; any other stands behind
/// `base`.
pub open spec fn path_from(base: Seq<char>, path: Seq<char>, style: Style) -> Seq<char> {
    if prefix_len(path, style) > 0 {
        path
    } else if is_verbatim(base, style) && path.len() > 0 {
        verbatim_from(base, path)
    } else if has_root(path, style) {
        base.take(prefix_len(base, style)) + path
    } else if needs_separator(base, style) {
        base.push(main_separator(style)) + path
    } else {
        base + path
    }
}

// ---------- computing ----------

/// A component ends behind its beginning, and in the path.
pub proof fn lemma_component_end(path: Seq<char>, i: int, style: Style, verbatim: bool)
    ensures
        component_end(path, i, style, verbatim) <= path.len(),
        i <= path.len() ==> component_end(path, i, style, verbatim) >= i,
    decreases path.len() - i,
{
    if i < path.len() && !separates(path[i], style, verbatim) {
        lemma_component_end(path, i + 1, style, verbatim);
    }
}

/// A prefix is part of its path.
pub proof fn lemma_prefix_len(path: Seq<char>, style: Style)
    ensures
        0 <= prefix_len(path, style) <= path.len(),
{
    if style == Style::Windows {
        lemma_share_end(path, 8, true);
        lemma_share_end(path, 2, false);
        lemma_component_end(path, 4, style, true);
        lemma_component_end(path, 4, style, false);
    }
}

/// A prefix of two names ends behind its beginning, and in the path.
proof fn lemma_share_end(path: Seq<char>, i: int, verbatim: bool)
    ensures
        share_end(path, i, verbatim) <= path.len(),
        i <= path.len() ==> share_end(path, i, verbatim) >= i,
{
    lemma_component_end(path, i, Style::Windows, verbatim);
    let server = component_end(path, i, Style::Windows, verbatim);
    lemma_component_end(path, server + 1, Style::Windows, verbatim);
}

/// Whether `c` separates components.
fn separator(c: char, style: Style, verbatim: bool) -> (r: bool)
    ensures
        r == separates(c, style, verbatim),
{
    if verbatim {
        c == '\\'
    } else {
        c == '/' || (style == Style::Windows && c == '\\')
    }
}

/// Where the component that begins at `from` ends.
fn find_end(path: &[char], from: usize, style: Style, verbatim: bool) -> (r: usize)
    ensures
        r == component_end(path@, from as int, style, verbatim),
        r <= path@.len(),
        from <= path@.len() ==> r >= from,
{
    let n: usize = path.len();
    if from >= n {
        return n;
    }
    let mut i: usize = from;
    while i < n && !separator(path[i], style, verbatim)
        invariant
            from <= i <= n,
            n == path@.len(),
            component_end(path@, from as int, style, verbatim) == component_end(
                path@,
                i as int,
                style,
                verbatim,
            ),
        decreases n - i,
    {
        i += 1;
    }
    i
}

/// Whether a drive letter and a colon stand at `i`.
fn drive_stands_at(path: &[char], i: usize) -> (r: bool)
    ensures
        r == drive_at(path@, i as int),
{
    let n: usize = path.len();
    i < n && n - i >= 2 && (('a' <= path[i] && path[i] <= 'z') || ('A' <= path[i] && path[i] <= 'Z'))
        && path[i + 1] == ':'
}

/// Whether `path` is verbatim.
fn verbatim(path: &[char], style: Style) -> (r: bool)
    ensures
        r == is_verbatim(path@, style),
{
    style == Style::Windows && path.len() >= 4 && path[0] == '\\' && path[1] == '\\' && path[2]
        == '?' && path[3] == '\\'
}

/// Where a prefix of two names ends, the first of which begins at `from`.
fn find_share_end(path: &[char], from: usize, verbatim: bool) -> (r: usize)
    ensures
        r == share_end(path@, from as int, verbatim),
        r <= path@.len(),
{
    let n: usize = path.len();
    let server = find_end(path, from, Style::Windows, verbatim);
    if server >= n {
        proof {
            lemma_component_end(path@, server + 1, Style::Windows, verbatim);
        }
        return server;
    }
    let share = find_end(path, server + 1, Style::Windows, verbatim);
    if share > server + 1 {
        share
    } else {
        server
    }
}

/// How long the prefix of `path` is.
fn find_prefix(path: &[char], style: Style) -> (r: usize)
    ensures
        r == prefix_len(path@, style),
        r <= path@.len(),
{
    proof {
        lemma_prefix_len(path@, style);
    }
    let n: usize = path.len();
    if style == Style::Unix {
        return 0;
    }
    if verbatim(path, style) {
        if n >= 8 && path[4] == 'U' && path[5] == 'N' && path[6] == 'C' && separator(
            path[7],
            style,
            false,
        ) {
            return find_share_end(path, 8, true);
        }
        if drive_stands_at(path, 4) && (n == 6 || separator(path[6], style, false)) {
            return 6;
        }
        return find_end(path, 4, style, true);
    }
    if n >= 2 && separator(path[0], style, false) && separator(path[1], style, false) {
        if n >= 4 && path[2] == '.' && separator(path[3], style, false) {
            return find_end(path, 4, style, false);
        }
        let server = find_end(path, 2, style, false);
        let share = find_share_end(path, 2, false);
        return if server > 2 && share > server {
            share
        } else {
            0
        };
    }
    if drive_stands_at(path, 0) {
        2
    } else {
        0
    }
}

/// Whether a component of `path` is `..`.
pub fn climbs(path: &[char], style: Style) -> (r: bool)
    ensures
        r == has_parent(path@, style),
{
    let n: usize = path.len();
    let start = find_prefix(path, style);
    let raw = verbatim(path, style);
    let rooted = start < n && separator(path[start], style, false);
    let mut i: usize = start;
    while i < n
        invariant
            start <= i <= n,
            n == path@.len(),
            start == prefix_len(path@, style),
            raw == is_verbatim(path@, style),
            rooted == has_root(path@, style),
            forall|j: int| 0 <= j < i ==> !parent_at(path@, j, style),
        decreases n - i,
    {
        let begins = i == start || (i == start + 1 && rooted) || separator(path[i - 1], style, raw);
        if begins && n - i >= 2 && path[i] == '.' && path[i + 1] == '.' && (n - i == 2 || separator(
            path[i + 2],
            style,
            raw,
        )) {
            assert(parent_at(path@, i as int, style));
            return true;
        }
        i += 1;
    }
    false
}

/// Whether a component of `path` is `..`.
pub fn text_climbs(path: &str, style: Style) -> (r: bool)
    ensures
        r == has_parent(path@, style),
{
    let cs = text::chars_of(path);
    climbs(cs.as_slice(), style)
}

/// Whether a component of `path` is `..` on some system.
pub fn climbs_somewhere(path: &str) -> (r: bool)
    ensures
        r == may_climb(path@),
{
    text_climbs(path, Style::Unix) || text_climbs(path, Style::Windows)
}

/// The components of `path` from `from` on, as they are written; without those
/// that are `.` where these are dropped.
fn split(path: &[char], from: usize, style: Style, verbatim: bool, drop_dots: bool) -> (r: Vec<
    String,
>)
    requires
        from <= path@.len(),
    ensures
        text::texts(r@) == if drop_dots {
            without_dots(pieces(path@, from as int, style, verbatim))
        } else {
            pieces(path@, from as int, style, verbatim)
        },
{
    let n: usize = path.len();
    let ghost all = pieces(path@, from as int, style, verbatim);
    let ghost mut seen: Seq<Seq<char>> = Seq::empty();
    let mut out: Vec<String> = Vec::new();
    let mut i: usize = from;
    assert(seen + all =~= all);
    assert(text::texts(out@) =~= seen);
    while i < n
        invariant
            i <= n,
            n == path@.len(),
            seen + pieces(path@, i as int, style, verbatim) == all,
            text::texts(out@) == if drop_dots {
                without_dots(seen)
            } else {
                seen
            },
        decreases n - i,
    {
        let e = find_end(path, i, style, verbatim);
        let ghost rest = if e < n {
            pieces(path@, e + 1, style, verbatim)
        } else {
            Seq::empty()
        };
        let ghost before = seen;
        if e > i {
            let name = slice_subrange(path, i, e);
            let ghost written = out@;
            proof {
                seen = before.push(name@);
                assert(before + (seq![name@] + rest) =~= seen + rest);
                assert(seen.drop_last() =~= before);
            }
            if !(drop_dots && text::is_text(name, ".")) {
                out.push(text::string_of(name));
                assert(text::texts(out@) =~= text::texts(written).push(name@));
            }
        }
        i = if e < n {
            e + 1
        } else {
            n
        };
        assert(e >= n ==> pieces(path@, i as int, style, verbatim) =~= rest);
    }
    assert(pieces(path@, i as int, style, verbatim) =~= Seq::<Seq<char>>::empty());
    assert(seen =~= all);
    out
}

/// `path` counted from the verbatim directory `base`.
fn join_verbatim(base: &[char], path: &[char]) -> (r: String)
    requires
        prefix_len(path@, Style::Windows) == 0,
    ensures
        r@ == verbatim_from(base@, path@),
{
    let style = Style::Windows;
    let start = find_prefix(base, style);
    let base_root = start < base.len() && separator(base[start], style, false);
    let path_root = path.len() > 0 && separator(path[0], style, false);
    let mut own = split(path, 0, style, false, true);
    let mut names: Vec<String> = Vec::new();
    if !path_root {
        let body: usize = if base_root {
            start + 1
        } else {
            start
        };
        names = split(base, body, style, true, false);
    }
    let ghost front = names@;
    let ghost back = own@;
    names.append(&mut own);
    proof {
        assert(text::texts(names@) =~= text::texts(front) + text::texts(back));
        assert(path_root ==> text::texts(names@) =~= text::texts(back));
        assert(text::texts(names@) == verbatim_names(base@, path@));
    }
    let mut out = text::string_of(slice_subrange(base, 0, start));
    assert(out@ =~= base@.take(start as int));
    if base_root || path_root || names.len() > 0 {
        proof {
            reveal_strlit("\\");
            assert("\\"@ =~= seq!['\\']);
        }
        out.push('\\');
        assert(out@ =~= base@.take(start as int) + seq!['\\']);
        out.append(text::join(&names, "\\").as_str());
    }
    out
}

/// `path` counted from the directory `base`.
pub fn join(base: &str, path: &str, style: Style) -> (r: String)
    ensures
        r@ == path_from(base@, path@, style),
{
    let ps = text::chars_of(path);
    let bs = text::chars_of(base);
    let p = ps.as_slice();
    let b = bs.as_slice();
    if find_prefix(p, style) > 0 {
        return path.to_owned();
    }
    proof {
        lemma_prefix_len(path@, style);
    }
    if verbatim(b, style) && p.len() > 0 {
        return join_verbatim(b, p);
    }
    if p.len() > 0 && separator(p[0], style, false) {
        let start = find_prefix(b, style);
        let mut out = text::string_of(slice_subrange(b, 0, start));
        assert(out@ =~= base@.take(start as int));
        out.append(path);
        return out;
    }
    let mut out = base.to_owned();
    if b.len() > 0 && !separator(b[b.len() - 1], style, false) && !(style == Style::Windows
        && drive_stands_at(b, 0) && b.len() == 2) {
        out.push(
            match style {
                Style::Unix => '/',
                Style::Windows => '\\',
            },
        );
    }
    out.append(path);
    out
}

// ---------- laws ----------

/// On Unix a path that begins with `/` is itself, and any other stands behind
/// the directory that it counts from.
pub proof fn law_unix_join(base: Seq<char>, path: Seq<char>)
    ensures
        path_from(base, path, Style::Unix) == if path.len() > 0 && path[0] == '/' {
            path
        } else if base.len() > 0 && base.last() != '/' {
            base.push('/') + path
        } else {
            base + path
        },
{
    if path.len() > 0 && path[0] == '/' {
        assert(base.take(0) + path =~= path);
    }
}

/// What a path counted from a directory ends with is the path itself, unless
/// the directory is verbatim.
pub proof fn law_join_keeps_path(base: Seq<char>, path: Seq<char>, style: Style)
    requires
        !is_verbatim(base, style),
    ensures
        ({
            let r = path_from(base, path, style);
            r.len() >= path.len() && r.skip(r.len() - path.len()) == path
        }),
{
    let r = path_from(base, path, style);
    assert(r.skip(r.len() - path.len()) =~= path);
}

} // verus!
