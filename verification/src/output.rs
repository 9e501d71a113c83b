//! What is read out of captured output, and what is hidden in it.

use vstd::prelude::*;
use vstd::slice::slice_subrange;
use crate::text;

verus! {

// ---------- `git diff --stat` ----------

/// One row of `git diff --stat`.
#[derive(Debug, Clone, PartialEq, Eq)]
pub struct GitStatLine {
    pub path: String,
    pub changes: u64,
    pub bar: String,
}

/// The text and the number of a row of `git diff --stat`.
pub struct StatRow {
    pub path: Seq<char>,
    pub changes: u64,
    pub bar: Seq<char>,
}

impl View for GitStatLine {
    type V = StatRow;

    open spec fn view(&self) -> StatRow {
        StatRow { path: self.path@, changes: self.changes, bar: self.bar@ }
    }
}

/// The rows that `v` holds.
pub open spec fn stat_rows(v: Seq<GitStatLine>) -> Seq<StatRow> {
    v.map_values(|g: GitStatLine| g@)
}

/// How many characters stand in front of the last `c`, or nothing where
/// there is no `c`.
pub open spec fn last_place(s: Seq<char>, c: char) -> Option<int>
    decreases s.len(),
{
    if s.len() == 0 {
        None
    } else if s.last() == c {
        Some(s.len() - 1)
    } else {
        last_place(s.drop_last(), c)
    }
}

/// The row that a line `path | N bar` writes. The path is what stands in
/// front of the last `|`, the number ends at the first blank behind it. A
/// line without a path or without a number above zero is no row.
pub open spec fn stat_row(line: Seq<char>) -> Option<StatRow> {
    match last_place(line, '|') {
        None => None,
        Some(p) => {
            let path = text::trimmed(line.take(p));
            let rest = text::trimmed_start(line.skip(p + 1));
            let n = text::find_char(rest, ' ');
            let changes = text::number_of(text::trimmed(rest.take(n)));
            if path.len() > 0 && n < rest.len() && changes is Some && changes->0 != 0 {
                Some(
                    StatRow { path, changes: changes->0, bar: text::trimmed(rest.skip(n)) },
                )
            } else {
                None
            }
        },
    }
}

/// The rows among `lines`, in order.
pub open spec fn rows_among(lines: Seq<Seq<char>>) -> Seq<StatRow>
    decreases lines.len(),
{
    if lines.len() == 0 {
        Seq::empty()
    } else {
        let front = rows_among(lines.drop_last());
        match stat_row(lines.last()) {
            Some(row) => front.push(row),
            None => front,
        }
    }
}

/// The place of the last `c` in `s`.
fn find_last(s: &[char], c: char) -> (r: Option<usize>)
    ensures
        match r {
            Some(p) => last_place(s@, c) == Some(p as int) && p < s@.len(),
            None => last_place(s@, c) is None,
        },
{
    let mut n: usize = s.len();
    assert(s@.take(n as int) == s@);
    while n > 0
        invariant
            n <= s@.len(),
            last_place(s@, c) == last_place(s@.take(n as int), c),
        decreases n,
    {
        assert(s@.take(n as int).drop_last() == s@.take(n - 1));
        if s[n - 1] == c {
            return Some(n - 1);
        }
        n -= 1;
    }
    None
}

/// The row that one line writes, if it writes one.
fn parse_row(line: &[char]) -> (r: Option<GitStatLine>)
    ensures
        match r {
            Some(g) => stat_row(line@) == Some(g@),
            None => stat_row(line@) is None,
        },
{
    let p = match find_last(line, '|') {
        None => {
            return None;
        },
        Some(p) => p,
    };
    let path = text::trim(slice_subrange(line, 0, p));
    assert(line@.subrange(0, p as int) == line@.take(p as int));
    if path.len() == 0 {
        return None;
    }
    let end: usize = line.len();
    let rest = text::trim_start(slice_subrange(line, p + 1, end));
    assert(line@.subrange(p + 1, line@.len() as int) == line@.skip(p + 1));
    let n = text::find_from(rest, 0, ' ');
    assert(rest@.skip(0) == rest@);
    if n == rest.len() {
        return None;
    }
    let num = text::trim(slice_subrange(rest, 0, n));
    assert(rest@.subrange(0, n as int) == rest@.take(n as int));
    match text::parse_number(num) {
        None => None,
        Some(changes) => {
            if changes == 0 {
                return None;
            }
            let bar = text::trim(slice_subrange(rest, n, rest.len()));
            assert(rest@.subrange(n as int, rest@.len() as int) == rest@.skip(n as int));
            let g = GitStatLine {
                path: text::string_of(path),
                changes,
                bar: text::string_of(bar),
            };
            Some(g)
        },
    }
}

/// Reads the rows of `git diff --stat`; nothing where there are none.
pub fn parse_git_stat(stdout: &str) -> (r: Option<Vec<GitStatLine>>)
    ensures
        match r {
            Some(v) => v@.len() > 0 && stat_rows(v@) == rows_among(text::lines_of(stdout@)),
            None => rows_among(text::lines_of(stdout@)).len() == 0,
        },
{
    let cs = text::chars_of(stdout);
    let lines = text::lines(cs.as_slice());
    let ghost all = text::lines_of(stdout@);
    let mut out: Vec<GitStatLine> = Vec::new();
    let mut i: usize = 0;
    assert(all.take(0) == Seq::<Seq<char>>::empty());
    while i < lines.len()
        invariant
            i <= lines@.len(),
            text::rows(lines@) == all,
            stat_rows(out@) == rows_among(all.take(i as int)),
        decreases lines@.len() - i,
    {
        let ghost before = out@;
        proof {
            assert(all.take(i + 1).drop_last() == all.take(i as int));
            assert(all[i as int] == lines@[i as int]@);
        }
        if let Some(g) = parse_row(lines[i].as_slice()) {
            out.push(g);
            assert(stat_rows(out@) == stat_rows(before).push(g@));
        }
        i += 1;
    }
    assert(all.take(i as int) == all);
    if out.len() == 0 {
        None
    } else {
        Some(out)
    }
}

/// The place of the last `c` is `last_place`.
pub proof fn lemma_last_place(s: Seq<char>, c: char, p: int)
    requires
        0 <= p < s.len(),
        s[p] == c,
        forall|j: int| p < j < s.len() ==> #[trigger] s[j] != c,
    ensures
        last_place(s, c) == Some(p),
    decreases s.len(),
{
    if p < s.len() - 1 {
        assert(s[s.len() - 1] != c);
        lemma_last_place(s.drop_last(), c, p);
    }
}

/// A line `path | N bar` is a row with that path, number and bar, whatever the
/// file is called and however the columns are padded.
pub proof fn law_stat_line(
    lead: Seq<char>,
    path: Seq<char>,
    pad: Seq<char>,
    gap: Seq<char>,
    changes: u64,
    bar: Seq<char>,
)
    requires
        forall|i: int| 0 <= i < lead.len() ==> #[trigger] lead[i] == ' ',
        forall|i: int| 0 <= i < pad.len() ==> #[trigger] pad[i] == ' ',
        forall|i: int| 0 <= i < gap.len() ==> #[trigger] gap[i] == ' ',
        path.len() > 0,
        !text::is_space(path[0]),
        !text::is_space(path.last()),
        changes > 0,
        !bar.contains('|'),
        bar.len() > 0 ==> !text::is_space(bar[0]) && !text::is_space(bar.last()),
    ensures
        stat_row(
            lead + path + pad + seq!['|'] + gap + text::decimal_of(changes as nat) + seq![' '] + bar,
        ) == Some(StatRow { path, changes, bar }),
{
    let none = Seq::<char>::empty();
    let digits = text::decimal_of(changes as nat);
    let front = lead + path + pad;
    let number = digits + seq![' '] + bar;
    let line = lead + path + pad + seq!['|'] + gap + digits + seq![' '] + bar;
    let p = front.len() as int;
    text::lemma_decimal_value(changes as nat);
    text::lemma_decimal_number(changes);
    let n = digits.len() as int;
    assert(text::is_digit(digits[0]) && text::is_digit(digits[n - 1]));
    assert(line[p] == '|');
    assert forall|j: int| p < j < line.len() implies #[trigger] line[j] != '|' by {
        let k = j - p - 1 - gap.len();
        if j - p - 1 < gap.len() {
            assert(line[j] == gap[j - p - 1]);
        } else if k < n {
            assert(line[j] == digits[k]);
            assert(text::is_digit(digits[k]));
        } else if k > n {
            assert(line[j] == bar[k - n - 1]);
            assert(bar.contains(bar[k - n - 1]));
        }
    }
    lemma_last_place(line, '|', p);
    assert(line.take(p) =~= front);
    text::lemma_trimmed_around(lead, path, pad);
    assert(line.skip(p + 1) =~= gap + digits + (seq![' '] + bar));
    lemma_number_part(gap, digits, bar);
    assert(number =~= digits + (seq![' '] + bar));
    text::lemma_trimmed_around(none, digits, none);
    assert(none + digits + none =~= digits);
    assert(number.take(n) =~= digits);
    assert(number.skip(n) =~= seq![' '] + bar + none);
    text::lemma_trimmed_around(seq![' '], bar, none);
}

/// Behind the bar of a row, the number ends at the first blank.
proof fn lemma_number_part(gap: Seq<char>, digits: Seq<char>, bar: Seq<char>)
    requires
        forall|i: int| 0 <= i < gap.len() ==> #[trigger] gap[i] == ' ',
        digits.len() > 0,
        text::all_digits(digits),
    ensures
        text::trimmed_start(gap + digits + (seq![' '] + bar)) == digits + (seq![' '] + bar),
        text::find_char(digits + (seq![' '] + bar), ' ') == digits.len(),
{
    let n = digits.len() as int;
    let s = digits + (seq![' '] + bar);
    assert(text::is_digit(digits[0]));
    assert(s[0] == digits[0]);
    assert(gap + digits + (seq![' '] + bar) =~= gap + s);
    text::lemma_trimmed_start(gap, s);
    assert forall|j: int| 0 <= j < n implies #[trigger] s[j] != ' ' by {
        assert(s[j] == digits[j]);
        assert(text::is_digit(digits[j]));
    }
    text::lemma_find_char_is(s, ' ', n);
}

// ---------- `gh` sign-in failures ----------

/// What a `gh` command's error output says about a failed sign-in, if it
/// says so.
pub open spec fn auth_failure(stderr: Seq<char>) -> Option<Seq<char>> {
    if text::has(stderr, "gh: To get started with GitHub CLI"@) || text::has(
        stderr,
        "gh auth login"@,
    ) {
        Some("gh auth required: run `gh auth login` (token missing or expired)"@)
    } else if text::has(stderr, "HTTP 401"@) || text::has(stderr, "Bad credentials"@) {
        Some("gh auth invalid: token rejected (401) — refresh with `gh auth login`"@)
    } else {
        None
    }
}

/// Turns a `gh` command's error output into one clear message, where it tells
/// of a failed sign-in.
pub fn gh_auth_error(stderr: &str) -> (r: Option<String>)
    ensures
        text::optional(r) == auth_failure(stderr@),
{
    let cs = text::chars_of(stderr);
    let s = cs.as_slice();
    if text::contains_text(s, "gh: To get started with GitHub CLI") || text::contains_text(
        s,
        "gh auth login",
    ) {
        Some("gh auth required: run `gh auth login` (token missing or expired)".to_owned())
    } else if text::contains_text(s, "HTTP 401") || text::contains_text(s, "Bad credentials") {
        Some("gh auth invalid: token rejected (401) — refresh with `gh auth login`".to_owned())
    } else {
        None
    }
}

// ---------- secrets ----------

/// The names and prefixes that give a secret away.
pub open spec fn secret_marks() -> Seq<Seq<char>> {
    seq![
        "GH_TOKEN"@,
        "GITHUB_TOKEN"@,
        "HF_TOKEN"@,
        "_TOKEN"@,
        "OPENAI_API_KEY"@,
        "ANTHROPIC_API_KEY"@,
        "API_KEY"@,
        "SECRET"@,
        "PASSWORD"@,
        "AWS_SECRET_ACCESS_KEY"@,
        "PRIVATE KEY"@,
        "ghp_"@,
        "github_pat_"@,
        "xoxb-"@,
        "Bearer "@,
    ]
}

/// The line holds one of the marks.
pub open spec fn is_secret(line: Seq<char>) -> bool {
    exists|k: int| 0 <= k < secret_marks().len() && text::has(line, #[trigger] secret_marks()[k])
}

/// A line as it is shown: hidden where it is secret. It ends with a line feed.
pub open spec fn shown_line(line: Seq<char>) -> Seq<char> {
    if is_secret(line) {
        "§§§§§§§§\n"@
    } else {
        line.push('\n')
    }
}

/// `s` with every secret line hidden and every line ended.
pub open spec fn masked(s: Seq<char>) -> Seq<char>
    decreases s.len(),
{
    if s.len() == 0 {
        Seq::empty()
    } else {
        proof {
            text::lemma_find_char(s, '\n');
        }
        let n = text::find_char(s, '\n');
        if n < s.len() {
            shown_line(s.take(n)) + masked(s.skip(n + 1))
        } else {
            shown_line(s)
        }
    }
}

/// The marks, ready for searching.
fn marks() -> (r: Vec<Vec<char>>)
    ensures
        text::rows(r@) == secret_marks(),
{
    let mut v: Vec<Vec<char>> = Vec::new();
    v.push(text::chars_of("GH_TOKEN"));
    v.push(text::chars_of("GITHUB_TOKEN"));
    v.push(text::chars_of("HF_TOKEN"));
    v.push(text::chars_of("_TOKEN"));
    v.push(text::chars_of("OPENAI_API_KEY"));
    v.push(text::chars_of("ANTHROPIC_API_KEY"));
    v.push(text::chars_of("API_KEY"));
    v.push(text::chars_of("SECRET"));
    v.push(text::chars_of("PASSWORD"));
    v.push(text::chars_of("AWS_SECRET_ACCESS_KEY"));
    v.push(text::chars_of("PRIVATE KEY"));
    v.push(text::chars_of("ghp_"));
    v.push(text::chars_of("github_pat_"));
    v.push(text::chars_of("xoxb-"));
    v.push(text::chars_of("Bearer "));
    assert(text::rows(v@) == secret_marks());
    v
}

/// Whether the line holds one of the marks.
fn secret(line: &[char], marks: &Vec<Vec<char>>) -> (r: bool)
    requires
        text::rows(marks@) == secret_marks(),
    ensures
        r == is_secret(line@),
{
    let mut k: usize = 0;
    while k < marks.len()
        invariant
            k <= marks@.len(),
            text::rows(marks@) == secret_marks(),
            forall|j: int| 0 <= j < k ==> !text::has(line@, #[trigger] secret_marks()[j]),
        decreases marks@.len() - k,
    {
        assert(secret_marks()[k as int] == marks@[k as int]@);
        if text::contains(line, marks[k].as_slice()) {
            return true;
        }
        k += 1;
    }
    false
}

/// Hides every line that looks like it holds a secret.
pub fn mask_secrets(s: &str) -> (r: String)
    ensures
        r@ == masked(s@),
{
    let cs = text::chars_of(s);
    let all = cs.as_slice();
    let marks = marks();
    let mut out = String::new();
    let mut i: usize = 0;
    assert(all@.skip(0) == all@);
    assert(out@ + masked(all@) == masked(all@));
    while i < all.len()
        invariant
            i <= all@.len(),
            text::rows(marks@) == secret_marks(),
            out@ + masked(all@.skip(i as int)) == masked(all@),
        decreases all@.len() - i,
    {
        let ghost before = out@;
        let ghost rest = all@.skip(i as int);
        let j = text::find_from(all, i, '\n');
        let line = slice_subrange(all, i, j);
        proof {
            assert(rest.take(j - i) == line@);
        }
        if secret(line, &marks) {
            out.append("§§§§§§§§\n");
        } else {
            text::push_all(&mut out, line);
            out.push('\n');
        }
        assert(out@ == before + shown_line(line@));
        if j < all.len() {
            i = j + 1;
            proof {
                assert(all@.skip(i as int) == rest.skip(line@.len() as int + 1));
                assert(out@ + masked(all@.skip(i as int)) == before + (shown_line(line@) + masked(
                    all@.skip(i as int),
                )));
            }
        } else {
            i = j;
            proof {
                assert(line@ == rest);
                assert(masked(all@.skip(i as int)) == Seq::<char>::empty());
                assert(out@ + masked(all@.skip(i as int)) == before + shown_line(rest));
            }
        }
    }
    assert(out@ + masked(all@.skip(i as int)) == out@);
    out
}

/// A mark is not empty and holds neither a line feed nor the hiding sign.
pub proof fn lemma_marks(k: int)
    requires
        0 <= k < secret_marks().len(),
    ensures
        secret_marks()[k].len() > 0,
        forall|i: int|
            0 <= i < secret_marks()[k].len() ==> #[trigger] secret_marks()[k][i] != '\n'
                && secret_marks()[k][i] != '§',
{
    reveal_strlit("GH_TOKEN");
    reveal_strlit("GITHUB_TOKEN");
    reveal_strlit("HF_TOKEN");
    reveal_strlit("_TOKEN");
    reveal_strlit("OPENAI_API_KEY");
    reveal_strlit("ANTHROPIC_API_KEY");
    reveal_strlit("API_KEY");
    reveal_strlit("SECRET");
    reveal_strlit("PASSWORD");
    reveal_strlit("AWS_SECRET_ACCESS_KEY");
    reveal_strlit("PRIVATE KEY");
    reveal_strlit("ghp_");
    reveal_strlit("github_pat_");
    reveal_strlit("xoxb-");
    reveal_strlit("Bearer ");
}

/// Text without a line feed that stands in two parts with a line feed between
/// them stands in one of the parts.
proof fn lemma_has_in_part(a: Seq<char>, b: Seq<char>, pat: Seq<char>)
    requires
        pat.len() > 0,
        forall|i: int| 0 <= i < pat.len() ==> #[trigger] pat[i] != '\n',
        text::has(a.push('\n') + b, pat),
    ensures
        text::has(a, pat) || text::has(b, pat),
{
    let s = a.push('\n') + b;
    let i = choose|i: int| text::occurs_at(s, pat, i);
    let m = pat.len() as int;
    assert(s.subrange(i, i + m) == pat);
    if i + m <= a.len() {
        assert(a.subrange(i, i + m) == s.subrange(i, i + m));
        assert(text::occurs_at(a, pat, i));
    } else if i > a.len() {
        let j = i - a.len() - 1;
        assert(b.subrange(j, j + m) == s.subrange(i, i + m));
        assert(text::occurs_at(b, pat, j));
    } else {
        let j = a.len() - i;
        assert(pat[j] == s[i + j]);
        assert(s[i + j] == '\n');
    }
}

/// The hiding line is no secret.
proof fn lemma_hidden()
    ensures
        "§§§§§§§§\n"@ == seq!['§', '§', '§', '§', '§', '§', '§', '§'].push('\n'),
        !is_secret(seq!['§', '§', '§', '§', '§', '§', '§', '§']),
{
    reveal_strlit("§§§§§§§§\n");
    assert("§§§§§§§§\n"@ =~= seq!['§', '§', '§', '§', '§', '§', '§', '§'].push('\n'));
    let h = seq!['§', '§', '§', '§', '§', '§', '§', '§'];
    assert forall|k: int| 0 <= k < secret_marks().len() implies !text::has(
        h,
        #[trigger] secret_marks()[k],
    ) by {
        let pat = secret_marks()[k];
        lemma_marks(k);
        if text::has(h, pat) {
            let i = choose|i: int| text::occurs_at(h, pat, i);
            assert(h.subrange(i, i + pat.len())[0] == pat[0]);
            assert(h[i] == pat[0]);
        }
    }
}

/// What a shown line holds in front of its line feed.
spec fn shown_text(line: Seq<char>) -> Seq<char> {
    if is_secret(line) {
        seq!['§', '§', '§', '§', '§', '§', '§', '§']
    } else {
        line
    }
}

/// A shown line is one line, holds no secret and ends with a line feed.
proof fn lemma_shown_text(line: Seq<char>)
    ensures
        shown_line(line) == shown_text(line).push('\n'),
        !is_secret(shown_text(line)),
        !line.contains('\n') ==> !shown_text(line).contains('\n'),
{
    lemma_hidden();
}

/// No mark of a secret stands anywhere in masked text.
pub proof fn law_no_secret_is_shown(s: Seq<char>, k: int)
    requires
        0 <= k < secret_marks().len(),
    ensures
        !text::has(masked(s), secret_marks()[k]),
    decreases s.len(),
{
    let pat = secret_marks()[k];
    lemma_marks(k);
    if s.len() > 0 {
        text::lemma_find_char(s, '\n');
        let n = text::find_char(s, '\n');
        let line = if n < s.len() {
            s.take(n)
        } else {
            s
        };
        let tail = if n < s.len() {
            masked(s.skip(n + 1))
        } else {
            Seq::empty()
        };
        lemma_shown_text(line);
        assert(masked(s) == shown_text(line).push('\n') + tail);
        if n < s.len() {
            law_no_secret_is_shown(s.skip(n + 1), k);
        } else {
            assert(!text::has(tail, pat));
        }
        if text::has(masked(s), pat) {
            lemma_has_in_part(shown_text(line), tail, pat);
            assert(!text::has(shown_text(line), secret_marks()[k]));
        }
    } else {
        assert(!text::has(masked(s), pat));
    }
}

/// The first line of a text comes first when it is masked.
proof fn lemma_masked_first(line: Seq<char>, rest: Seq<char>)
    requires
        !line.contains('\n'),
    ensures
        masked(line.push('\n') + rest) == shown_line(line) + masked(rest),
{
    let s = line.push('\n') + rest;
    assert forall|j: int| 0 <= j < line.len() implies #[trigger] s[j] != '\n' by {
        assert(s[j] == line[j]);
        assert(line.contains(line[j]));
    }
    text::lemma_find_char_is(s, '\n', line.len() as int);
    assert(s.take(line.len() as int) == line);
    assert(s.skip(line.len() as int + 1) == rest);
}

/// Masking masked text changes nothing.
pub proof fn law_masking_is_idempotent(s: Seq<char>)
    ensures
        masked(masked(s)) == masked(s),
    decreases s.len(),
{
    if s.len() > 0 {
        text::lemma_find_char(s, '\n');
        let n = text::find_char(s, '\n');
        let line = if n < s.len() {
            s.take(n)
        } else {
            s
        };
        let rest = if n < s.len() {
            s.skip(n + 1)
        } else {
            Seq::empty()
        };
        assert forall|j: int| 0 <= j < line.len() implies #[trigger] line[j] != '\n' by {
            assert(s[j] == line[j]);
        }
        lemma_shown_text(line);
        lemma_shown_text(shown_text(line));
        law_masking_is_idempotent(rest);
        assert(masked(s) == shown_text(line).push('\n') + masked(rest));
        lemma_masked_first(shown_text(line), masked(rest));
    }
}

/// Text whose lines all end and hold no secret is shown as it is.
pub proof fn law_harmless_text_is_kept(s: Seq<char>)
    requires
        s.len() == 0 || s.last() == '\n',
        forall|k: int| 0 <= k < secret_marks().len() ==> !text::has(s, #[trigger] secret_marks()[k]),
    ensures
        masked(s) == s,
    decreases s.len(),
{
    if s.len() > 0 {
        text::lemma_find_char(s, '\n');
        let n = text::find_char(s, '\n');
        let line = s.take(n);
        let rest = s.skip(n + 1);
        assert(s == line.push('\n') + rest);
        assert forall|k: int| 0 <= k < secret_marks().len() implies !text::has(
            line,
            #[trigger] secret_marks()[k],
        ) && !text::has(rest, secret_marks()[k]) by {
            let pat = secret_marks()[k];
            if text::has(line, pat) {
                let i = choose|i: int| text::occurs_at(line, pat, i);
                assert(s.subrange(i, i + pat.len()) == line.subrange(i, i + pat.len()));
                assert(text::occurs_at(s, pat, i));
            }
            if text::has(rest, pat) {
                let i = choose|i: int| text::occurs_at(rest, pat, i);
                let j = i + n + 1;
                assert(s.subrange(j, j + pat.len()) == rest.subrange(i, i + pat.len()));
                assert(text::occurs_at(s, pat, j));
            }
        }
        law_harmless_text_is_kept(rest);
    }
}

} // verus!
