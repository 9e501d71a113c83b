//! What holds of every path: where its components begin, which paths climb,
//! and what a path counted from a directory is.

use vstd::prelude::*;
use crate::paths;
use crate::paths::Style;
use crate::text;

verus! {

/// `c` stands between components on Windows.
pub open spec fn is_slash(c: char) -> bool {
    c == '/' || c == '\\'
}

/// A component ends at the first separator behind its beginning.
proof fn lemma_component_end(path: Seq<char>, i: int, n: int, verbatim: bool)
    requires
        0 <= i <= n <= path.len(),
        forall|j: int|
            i <= j < n ==> !paths::separates(#[trigger] path[j], Style::Windows, verbatim),
        n < path.len() ==> paths::separates(path[n], Style::Windows, verbatim),
    ensures
        paths::component_end(path, i, Style::Windows, verbatim) == n,
    decreases n - i,
{
    if i < n {
        assert(!paths::separates(path[i], Style::Windows, verbatim));
        lemma_component_end(path, i + 1, n, verbatim);
    }
}

// ---------- prefixes ----------

/// Where the prefix of a Windows path ends: there is none unless two
/// separators or a drive begin it; a drive is a letter and a colon.
pub proof fn law_drive_prefix(path: Seq<char>)
    requires
        path.len() < 2 || !(is_slash(path[0]) && is_slash(path[1])),
    ensures
        ({
            let drive = path.len() >= 2 && path[1] == ':' && (('a' <= path[0] && path[0] <= 'z')
                || ('A' <= path[0] && path[0] <= 'Z'));
            paths::prefix_len(path, Style::Windows) == if drive {
                2int
            } else {
                0int
            }
        }),
{
}

/// A share is a prefix: two separators, a server, a separator and a name.
pub proof fn law_share_prefix(
    s: char,
    t: char,
    server: Seq<char>,
    u: char,
    share: Seq<char>,
    rest: Seq<char>,
)
    requires
        is_slash(s),
        is_slash(t),
        is_slash(u),
        server.len() > 0,
        share.len() > 0,
        server != seq!['.'],
        server != seq!['?'],
        forall|i: int| 0 <= i < server.len() ==> !is_slash(#[trigger] server[i]),
        forall|i: int| 0 <= i < share.len() ==> !is_slash(#[trigger] share[i]),
        rest.len() > 0 ==> is_slash(rest[0]),
    ensures
        paths::prefix_len(seq![s, t] + server + seq![u] + share + rest, Style::Windows) == 3
            + server.len() + share.len(),
        !paths::is_verbatim(seq![s, t] + server + seq![u] + share + rest, Style::Windows),
{
    let path = seq![s, t] + server + seq![u] + share + rest;
    let n = 2 + server.len() as int;
    let m = n + 1 + share.len();
    assert(path[0] == s && path[1] == t);
    assert(path[n] == u);
    assert(path[2] == server[0]);
    if path[2] == '?' || path[2] == '.' {
        assert(server.len() > 1) by {
            if server.len() == 1 {
                assert(server =~= seq![server[0]]);
            }
        }
        assert(path[3] == server[1]);
        assert(!is_slash(server[1]));
    }
    assert forall|j: int| 2 <= j < n implies !paths::separates(
        #[trigger] path[j],
        Style::Windows,
        false,
    ) by {
        assert(path[j] == server[j - 2]);
    }
    lemma_component_end(path, 2, n, false);
    assert forall|j: int| n + 1 <= j < m implies !paths::separates(
        #[trigger] path[j],
        Style::Windows,
        false,
    ) by {
        assert(path[j] == share[j - n - 1]);
    }
    if m < path.len() {
        assert(path[m] == rest[0]);
    }
    lemma_component_end(path, n + 1, m, false);
}

/// Two separators and a server without a name behind it are no prefix.
pub proof fn law_no_share_prefix(s: char, t: char, server: Seq<char>, rest: Seq<char>)
    requires
        is_slash(s),
        is_slash(t),
        server != seq!['.'],
        server != seq!['?'],
        forall|i: int| 0 <= i < server.len() ==> !is_slash(#[trigger] server[i]),
        rest.len() > 0 ==> is_slash(rest[0]),
        rest.len() > 1 && server.len() > 0 ==> is_slash(rest[1]),
    ensures
        paths::prefix_len(seq![s, t] + server + rest, Style::Windows) == 0,
{
    let path = seq![s, t] + server + rest;
    let n = 2 + server.len() as int;
    assert(path[0] == s && path[1] == t);
    if server.len() > 0 {
        assert(path[2] == server[0]);
        if path.len() > 3 && (path[2] == '?' || path[2] == '.') {
            assert(server.len() > 1) by {
                if server.len() == 1 {
                    assert(server =~= seq![server[0]]);
                }
            }
            assert(path[3] == server[1]);
            assert(!is_slash(server[1]));
        }
    } else if rest.len() > 0 {
        assert(path[2] == rest[0]);
    }
    assert forall|j: int| 2 <= j < n implies !paths::separates(
        #[trigger] path[j],
        Style::Windows,
        false,
    ) by {
        assert(path[j] == server[j - 2]);
    }
    if n < path.len() {
        assert(path[n] == rest[0]);
    }
    lemma_component_end(path, 2, n, false);
    if n + 1 < path.len() && server.len() > 0 {
        assert(path[n + 1] == rest[1]);
        lemma_component_end(path, n + 1, n + 1, false);
    }
}

/// A device is a prefix: two separators, a dot, a separator and a name.
pub proof fn law_device_prefix(s: char, t: char, u: char, name: Seq<char>, rest: Seq<char>)
    requires
        is_slash(s),
        is_slash(t),
        is_slash(u),
        forall|i: int| 0 <= i < name.len() ==> !is_slash(#[trigger] name[i]),
        rest.len() > 0 ==> is_slash(rest[0]),
    ensures
        paths::prefix_len(seq![s, t, '.', u] + name + rest, Style::Windows) == 4 + name.len(),
{
    let path = seq![s, t, '.', u] + name + rest;
    let n = 4 + name.len() as int;
    assert(path[0] == s && path[1] == t && path[2] == '.' && path[3] == u);
    assert forall|j: int| 4 <= j < n implies !paths::separates(
        #[trigger] path[j],
        Style::Windows,
        false,
    ) by {
        assert(path[j] == name[j - 4]);
    }
    if n < path.len() {
        assert(path[n] == rest[0]);
    }
    lemma_component_end(path, 4, n, false);
}

/// A verbatim prefix without a share or a drive goes up to the next backslash.
pub proof fn law_verbatim_prefix(name: Seq<char>, rest: Seq<char>)
    requires
        forall|i: int| 0 <= i < name.len() ==> #[trigger] name[i] != '\\',
        name.len() != 2 || name[1] != ':',
        name.len() >= 3 ==> name[1] != ':' || name[2] != '/',
        name != seq!['U', 'N', 'C'],
        name.len() >= 4 ==> name[0] != 'U' || name[3] != '/',
        rest.len() > 0 ==> rest[0] == '\\',
    ensures
        paths::is_verbatim(seq!['\\', '\\', '?', '\\'] + name + rest, Style::Windows),
        paths::prefix_len(seq!['\\', '\\', '?', '\\'] + name + rest, Style::Windows) == 4
            + name.len(),
{
    let path = seq!['\\', '\\', '?', '\\'] + name + rest;
    let n = 4 + name.len() as int;
    assert(path[0] == '\\' && path[1] == '\\' && path[2] == '?' && path[3] == '\\');
    assert forall|j: int| 4 <= j < n implies !paths::separates(
        #[trigger] path[j],
        Style::Windows,
        true,
    ) by {
        assert(path[j] == name[j - 4]);
    }
    if n < path.len() {
        assert(path[n] == rest[0]);
    }
    lemma_component_end(path, 4, n, true);
    assert forall|j: int| 0 <= j < name.len() implies path[4 + j] == #[trigger] name[j] by {
    }
    if path.len() >= 8 && path[4] == 'U' && path[5] == 'N' && path[6] == 'C' && is_slash(path[7]) {
        if name.len() == 3 {
            assert(path[4] == name[0] && path[5] == name[1] && path[6] == name[2]);
            assert(name =~= seq!['U', 'N', 'C']);
        } else if name.len() > 3 {
            assert(path[4] == name[0] && path[7] == name[3]);
        } else {
            assert(path[n] == '\\');
        }
    }
    if paths::drive_at(path, 4) {
        if name.len() >= 2 {
            assert(path[5] == name[1]);
            if name.len() >= 3 {
                assert(path[6] == name[2]);
            }
        } else {
            assert(path[n] == '\\');
        }
    }
}

/// A verbatim drive is a prefix, and so is a verbatim share.
pub proof fn law_verbatim_drive_and_share(
    d: char,
    server: Seq<char>,
    share: Seq<char>,
    rest: Seq<char>,
)
    requires
        ('a' <= d && d <= 'z') || ('A' <= d && d <= 'Z'),
        share.len() > 0,
        forall|i: int| 0 <= i < server.len() ==> #[trigger] server[i] != '\\',
        forall|i: int| 0 <= i < share.len() ==> #[trigger] share[i] != '\\',
        rest.len() > 0 ==> rest[0] == '\\',
    ensures
        paths::prefix_len(seq!['\\', '\\', '?', '\\', d, ':'] + rest, Style::Windows) == 6,
        paths::prefix_len(
            seq!['\\', '\\', '?', '\\', 'U', 'N', 'C', '\\'] + server + seq!['\\'] + share + rest,
            Style::Windows,
        ) == 9 + server.len() + share.len(),
{
    let drive = seq!['\\', '\\', '?', '\\', d, ':'] + rest;
    assert(drive[0] == '\\' && drive[1] == '\\' && drive[2] == '?' && drive[3] == '\\');
    assert(drive[4] == d && drive[5] == ':');
    if drive.len() > 6 {
        assert(drive[6] == rest[0]);
    }
    let path = seq!['\\', '\\', '?', '\\', 'U', 'N', 'C', '\\'] + server + seq!['\\'] + share
        + rest;
    let n = 8 + server.len() as int;
    let m = n + 1 + share.len();
    assert(path[0] == '\\' && path[1] == '\\' && path[2] == '?' && path[3] == '\\');
    assert(path[4] == 'U' && path[5] == 'N' && path[6] == 'C' && path[7] == '\\');
    assert(path[n] == '\\');
    assert forall|j: int| 8 <= j < n implies !paths::separates(
        #[trigger] path[j],
        Style::Windows,
        true,
    ) by {
        assert(path[j] == server[j - 8]);
    }
    lemma_component_end(path, 8, n, true);
    assert forall|j: int| n + 1 <= j < m implies !paths::separates(
        #[trigger] path[j],
        Style::Windows,
        true,
    ) by {
        assert(path[j] == share[j - n - 1]);
    }
    if m < path.len() {
        assert(path[m] == rest[0]);
    }
    lemma_component_end(path, n + 1, m, true);
}

// ---------- climbing ----------

/// The path `a`, the name of the directory above, and the path `b`.
pub open spec fn with_parent(a: Seq<char>, b: Seq<char>) -> Seq<char> {
    a + seq!['.', '.'] + b
}

/// On Unix a path climbs exactly where `..` stands in it between two `/`, or
/// between one and an end of the path.
pub proof fn law_unix_climbs(path: Seq<char>)
    ensures
        paths::has_parent(path, Style::Unix) <==> exists|a: Seq<char>, b: Seq<char>|
            {
                &&& path == #[trigger] with_parent(a, b)
                &&& a.len() == 0 || a.last() == '/'
                &&& b.len() == 0 || b[0] == '/'
            },
{
    if paths::has_parent(path, Style::Unix) {
        let i = choose|i: int| paths::parent_at(path, i, Style::Unix);
        let a = path.take(i);
        let b = path.skip(i + 2);
        assert(path =~= with_parent(a, b));
        if i > 0 {
            assert(a.last() == path[i - 1]);
        }
        if b.len() > 0 {
            assert(b[0] == path[i + 2]);
        }
    }
    if exists|a: Seq<char>, b: Seq<char>|
        {
            &&& path == #[trigger] with_parent(a, b)
            &&& a.len() == 0 || a.last() == '/'
            &&& b.len() == 0 || b[0] == '/'
        } {
        let (a, b) = choose|a: Seq<char>, b: Seq<char>|
            {
                &&& path == #[trigger] with_parent(a, b)
                &&& a.len() == 0 || a.last() == '/'
                &&& b.len() == 0 || b[0] == '/'
            };
        let i = a.len() as int;
        assert(path[i] == '.' && path[i + 1] == '.');
        if i > 0 {
            assert(path[i - 1] == a[i - 1]);
        }
        if b.len() > 0 {
            assert(path[i + 2] == b[0]);
        }
        assert(paths::parent_at(path, i, Style::Unix));
    }
}

/// On Windows a path climbs exactly where, behind its prefix, `..` stands in
/// it between two separators, or between one and an end; behind a verbatim
/// prefix only a backslash separates, but for a `/` right behind the prefix.
pub proof fn law_windows_climbs(path: Seq<char>)
    ensures
        ({
            let n = paths::prefix_len(path, Style::Windows);
            let verbatim = paths::is_verbatim(path, Style::Windows);
            paths::has_parent(path, Style::Windows) <==> exists|a: Seq<char>, b: Seq<char>|
                {
                    &&& path.skip(n) == #[trigger] with_parent(a, b)
                    &&& a.len() == 0 || a.last() == '\\' || (a.last() == '/' && (!verbatim
                        || a.len() == 1))
                    &&& b.len() == 0 || b[0] == '\\' || (b[0] == '/' && !verbatim)
                }
        }),
{
    paths::lemma_prefix_len(path, Style::Windows);
    let n = paths::prefix_len(path, Style::Windows);
    let verbatim = paths::is_verbatim(path, Style::Windows);
    let s = path.skip(n);
    if paths::has_parent(path, Style::Windows) {
        let i = choose|i: int| paths::parent_at(path, i, Style::Windows);
        let k = i - n;
        let a = s.take(k);
        let b = s.skip(k + 2);
        assert(s[k] == path[i] && s[k + 1] == path[i + 1]);
        assert(s =~= with_parent(a, b));
        if k > 0 {
            assert(a.last() == path[i - 1]);
        }
        if b.len() > 0 {
            assert(b[0] == path[i + 2]);
        }
    }
    if exists|a: Seq<char>, b: Seq<char>|
        {
            &&& s == #[trigger] with_parent(a, b)
            &&& a.len() == 0 || a.last() == '\\' || (a.last() == '/' && (!verbatim || a.len()
                == 1))
            &&& b.len() == 0 || b[0] == '\\' || (b[0] == '/' && !verbatim)
        } {
        let (a, b) = choose|a: Seq<char>, b: Seq<char>|
            {
                &&& s == #[trigger] with_parent(a, b)
                &&& a.len() == 0 || a.last() == '\\' || (a.last() == '/' && (!verbatim || a.len()
                    == 1))
                &&& b.len() == 0 || b[0] == '\\' || (b[0] == '/' && !verbatim)
            };
        let k = a.len() as int;
        let i = n + k;
        let w = with_parent(a, b);
        assert(w.len() == k + 2 + b.len());
        assert(w[k] == '.' && w[k + 1] == '.');
        assert(s[k] == '.' && s[k + 1] == '.');
        assert(s.len() == path.len() - n);
        assert(path[i] == s[k] && path[i + 1] == s[k + 1]);
        if k > 0 {
            assert(s[k - 1] == a[k - 1]);
            assert(path[i - 1] == s[k - 1]);
        }
        if b.len() > 0 {
            assert(s[k + 2] == b[0]);
            assert(path[i + 2] == s[k + 2]);
        }
        assert(paths::parent_at(path, i, Style::Windows));
    }
}

/// A pattern may climb where it climbs on one of the systems.
pub proof fn law_climbs_somewhere(path: Seq<char>)
    ensures
        paths::may_climb(path) <==> paths::has_parent(path, Style::Unix) || paths::has_parent(
            path,
            Style::Windows,
        ),
{
}

// ---------- counting from a directory ----------

/// On Windows a path with a prefix stands for itself; one that begins with a
/// separator is counted from the prefix of the directory; any other from the
/// directory, with a backslash between them unless one separator stands there
/// or the directory is empty or a drive alone.
pub proof fn law_windows_join(base: Seq<char>, path: Seq<char>)
    requires
        !paths::is_verbatim(base, Style::Windows),
    ensures
        ({
            let r = paths::path_from(base, path, Style::Windows);
            let n = paths::prefix_len(path, Style::Windows);
            let bare = base.len() == 2 && base[1] == ':' && (('a' <= base[0] && base[0] <= 'z')
                || ('A' <= base[0] && base[0] <= 'Z'));
            let rooted = path.len() > 0 && is_slash(path[0]);
            &&& n > 0 ==> r == path
            &&& n == 0 && rooted ==> r == base.take(paths::prefix_len(base, Style::Windows)) + path
            &&& n == 0 && !rooted && (base.len() == 0 || is_slash(base.last()) || bare) ==> r
                == base + path
            &&& n == 0 && !rooted && base.len() > 0 && !is_slash(base.last()) && !bare ==> r == base
                + seq!['\\'] + path
        }),
{
    paths::lemma_prefix_len(path, Style::Windows);
    assert(base.push('\\') + path =~= base + seq!['\\'] + path);
}

/// The names of a path, from `i` on, are what stands between its separators,
/// without the empty ones.
pub proof fn law_names_of_a_path(path: Seq<char>, i: int, k: int, verbatim: bool)
    requires
        0 <= i <= k <= path.len(),
        forall|j: int|
            i <= j < k ==> #[trigger] path[j] != '\\' && (path[j] != '/' || verbatim),
        k < path.len() ==> path[k] == '\\' || (path[k] == '/' && !verbatim),
    ensures
        ({
            let own = if k > i {
                seq![path.subrange(i, k)]
            } else {
                Seq::<Seq<char>>::empty()
            };
            paths::pieces(path, i, Style::Windows, verbatim) == own + if k < path.len() {
                paths::pieces(path, k + 1, Style::Windows, verbatim)
            } else {
                Seq::empty()
            }
        }),
{
    lemma_component_end(path, i, k, verbatim);
    let none = Seq::<Seq<char>>::empty();
    if k < path.len() {
        let rest = paths::pieces(path, k + 1, Style::Windows, verbatim);
        assert(none + rest =~= rest);
    } else {
        assert(none + none =~= none);
        if k > i {
            assert(seq![path.subrange(i, k)] + none =~= seq![path.subrange(i, k)]);
        }
    }
}

/// Of the names of a path single dots are left out, and nothing else.
pub proof fn law_dots_are_left_out(names: Seq<Seq<char>>, name: Seq<char>)
    ensures
        paths::without_dots(Seq::empty()) == Seq::<Seq<char>>::empty(),
        name == seq!['.'] ==> paths::without_dots(names.push(name)) == paths::without_dots(names),
        name != seq!['.'] ==> paths::without_dots(names.push(name)) == paths::without_dots(
            names,
        ).push(name),
{
    reveal_strlit(".");
    assert("."@ =~= seq!['.']);
    assert(names.push(name).drop_last() =~= names);
}

/// Counted from a verbatim directory, a path without a prefix gives the prefix
/// of the directory and, behind it, names with backslashes between them: those
/// of the directory, unless the path begins with a separator, and then those
/// of the path without single dots.
pub proof fn law_verbatim_join(base: Seq<char>, path: Seq<char>)
    requires
        paths::is_verbatim(base, Style::Windows),
        paths::prefix_len(path, Style::Windows) == 0,
        path.len() > 0,
    ensures
        ({
            let n = paths::prefix_len(base, Style::Windows);
            let based = n < base.len() && is_slash(base[n]);
            let rooted = is_slash(path[0]);
            let start = if based {
                n + 1
            } else {
                n
            };
            let own = paths::without_dots(paths::pieces(path, 0, Style::Windows, false));
            let names = if rooted {
                own
            } else {
                paths::pieces(base, start, Style::Windows, true) + own
            };
            paths::path_from(base, path, Style::Windows) == if rooted || based || names.len() > 0 {
                base.take(n) + seq!['\\'] + text::joined(names, seq!['\\'])
            } else {
                base.take(n)
            }
        }),
{
}

} // verus!
