//! What holds of every output: which lines are hidden, which tell of a failed
//! sign-in, and which are rows of a difference's statistics.

use vstd::prelude::*;
use crate::output;
use crate::output::StatRow;
use crate::text;

verus! {

// ---------- secrets ----------

/// A text that marks a line as secret.
pub open spec fn marks_a_secret(m: Seq<char>) -> bool {
    ||| m == "GH_TOKEN"@
    ||| m == "GITHUB_TOKEN"@
    ||| m == "HF_TOKEN"@
    ||| m == "_TOKEN"@
    ||| m == "OPENAI_API_KEY"@
    ||| m == "ANTHROPIC_API_KEY"@
    ||| m == "API_KEY"@
    ||| m == "SECRET"@
    ||| m == "PASSWORD"@
    ||| m == "AWS_SECRET_ACCESS_KEY"@
    ||| m == "PRIVATE KEY"@
    ||| m == "ghp_"@
    ||| m == "github_pat_"@
    ||| m == "xoxb-"@
    ||| m == "Bearer "@
}

/// The marks are the texts of the list.
proof fn lemma_mark(m: Seq<char>) -> (k: int)
    requires
        marks_a_secret(m),
    ensures
        0 <= k < output::secret_marks().len(),
        output::secret_marks()[k] == m,
{
    let l = output::secret_marks();
    if m == l[0] {
        0
    } else if m == l[1] {
        1
    } else if m == l[2] {
        2
    } else if m == l[3] {
        3
    } else if m == l[4] {
        4
    } else if m == l[5] {
        5
    } else if m == l[6] {
        6
    } else if m == l[7] {
        7
    } else if m == l[8] {
        8
    } else if m == l[9] {
        9
    } else if m == l[10] {
        10
    } else if m == l[11] {
        11
    } else if m == l[12] {
        12
    } else if m == l[13] {
        13
    } else {
        14
    }
}

/// The texts of the list are the marks.
proof fn lemma_listed(k: int)
    requires
        0 <= k < output::secret_marks().len(),
    ensures
        marks_a_secret(output::secret_marks()[k]),
{
}

/// What is shown of a line is at the front of what is shown of the text.
proof fn lemma_first_line(line: Seq<char>, rest: Seq<char>)
    requires
        !line.contains('\n'),
    ensures
        output::masked(line + seq!['\n'] + rest) == output::shown_line(line) + output::masked(rest),
        line.len() > 0 ==> output::masked(line) == output::shown_line(line),
{
    let s = line + seq!['\n'] + rest;
    let n = line.len() as int;
    assert forall|j: int| 0 <= j < n implies #[trigger] s[j] != '\n' && line[j] != '\n' by {
        assert(s[j] == line[j]);
        assert(line.contains(line[j]));
    }
    text::lemma_find_char_is(s, '\n', n);
    assert(s.take(n) =~= line);
    assert(s.skip(n + 1) =~= rest);
    assert forall|j: int| 0 <= j < n implies #[trigger] line[j] != '\n' by {
        assert(line.contains(line[j]));
    }
    text::lemma_find_char_is(line, '\n', n);
}

/// A line with a mark in it is replaced by eight signs, at whatever place it
/// stands and whatever else it holds.
pub proof fn law_marked_line_is_hidden(a: Seq<char>, m: Seq<char>, b: Seq<char>, rest: Seq<char>)
    requires
        marks_a_secret(m),
        !(a + m + b).contains('\n'),
    ensures
        output::masked(a + m + b + seq!['\n'] + rest) == seq![
            '§',
            '§',
            '§',
            '§',
            '§',
            '§',
            '§',
            '§',
            '\n',
        ] + output::masked(rest),
        output::masked(a + m + b) == seq!['§', '§', '§', '§', '§', '§', '§', '§', '\n'],
{
    let line = a + m + b;
    let k = lemma_mark(m);
    assert(line.subrange(a.len() as int, (a.len() + m.len()) as int) =~= m);
    assert(text::occurs_at(line, m, a.len() as int));
    assert(text::has(line, output::secret_marks()[k]));
    assert(output::is_secret(line));
    reveal_strlit("§§§§§§§§\n");
    assert("§§§§§§§§\n"@ =~= seq!['§', '§', '§', '§', '§', '§', '§', '§', '\n']);
    lemma_first_line(line, rest);
    output::lemma_marks(k);
}

/// A line without a mark is shown as it is, with a line feed behind it.
pub proof fn law_other_line_is_shown(line: Seq<char>, rest: Seq<char>)
    requires
        !line.contains('\n'),
        forall|m: Seq<char>| #[trigger] marks_a_secret(m) ==> !text::has(line, m),
    ensures
        output::masked(line + seq!['\n'] + rest) == line + seq!['\n'] + output::masked(rest),
        line.len() > 0 ==> output::masked(line) == line + seq!['\n'],
        output::masked(Seq::empty()) == Seq::<char>::empty(),
{
    if output::is_secret(line) {
        let k = choose|k: int|
            0 <= k < output::secret_marks().len() && text::has(
                line,
                #[trigger] output::secret_marks()[k],
            );
        lemma_listed(k);
        assert(marks_a_secret(output::secret_marks()[k]));
    }
    lemma_first_line(line, rest);
    assert(line.push('\n') =~= line + seq!['\n']);
}

/// No mark stands in what is shown.
pub proof fn law_no_mark_is_shown(s: Seq<char>, m: Seq<char>)
    requires
        marks_a_secret(m),
    ensures
        !text::has(output::masked(s), m),
{
    let k = lemma_mark(m);
    output::law_no_secret_is_shown(s, k);
}

/// Text without marks, all of whose lines end, is shown character for
/// character.
pub proof fn law_unmarked_text_is_shown(s: Seq<char>)
    requires
        s.len() == 0 || s.last() == '\n',
        forall|m: Seq<char>| #[trigger] marks_a_secret(m) ==> !text::has(s, m),
    ensures
        output::masked(s) == s,
{
    assert forall|k: int| 0 <= k < output::secret_marks().len() implies !text::has(
        s,
        #[trigger] output::secret_marks()[k],
    ) by {
        lemma_listed(k);
        assert(marks_a_secret(output::secret_marks()[k]));
    }
    output::law_harmless_text_is_kept(s);
}

// ---------- signing in ----------

/// Error output that asks to sign in is told as a missing sign-in; one that
/// only tells of a refused token is told as that; any other is not told.
pub proof fn law_sign_in(s: Seq<char>)
    ensures
        ({
            let asks = text::has(s, "gh: To get started with GitHub CLI"@) || text::has(
                s,
                "gh auth login"@,
            );
            let refused = text::has(s, "HTTP 401"@) || text::has(s, "Bad credentials"@);
            &&& asks ==> output::auth_failure(s) == Some(
                "gh auth required: run `gh auth login` (token missing or expired)"@,
            )
            &&& !asks && refused ==> output::auth_failure(s) == Some(
                "gh auth invalid: token rejected (401) — refresh with `gh auth login`"@,
            )
            &&& !asks && !refused ==> output::auth_failure(s) is None
        }),
{
}

// ---------- statistics ----------

/// The rows of two texts are those of the first and then those of the second;
/// a single line gives its row or none.
pub proof fn law_rows_in_order(a: Seq<Seq<char>>, b: Seq<Seq<char>>, line: Seq<char>)
    ensures
        output::rows_among(a + b) == output::rows_among(a) + output::rows_among(b),
        output::rows_among(seq![line]) == match output::stat_row(line) {
            Some(row) => seq![row],
            None => Seq::empty(),
        },
    decreases b.len(),
{
    let none = Seq::<Seq<char>>::empty();
    assert(seq![line].drop_last() =~= none);
    assert(output::rows_among(none) =~= Seq::empty());
    match output::stat_row(line) {
        Some(row) => {
            assert(Seq::<StatRow>::empty().push(row) =~= seq![row]);
        },
        None => {},
    }
    if b.len() == 0 {
        assert(a + b =~= a);
        assert(output::rows_among(a) + output::rows_among(b) =~= output::rows_among(a));
    } else {
        assert((a + b).drop_last() =~= a + b.drop_last());
        law_rows_in_order(a, b.drop_last(), line);
        match output::stat_row(b.last()) {
            Some(row) => {
                assert((output::rows_among(a) + output::rows_among(b.drop_last())).push(row)
                    =~= output::rows_among(a) + output::rows_among(b.drop_last()).push(row));
            },
            None => {},
        }
    }
}

/// A line without a bar is no row.
pub proof fn law_no_bar_no_row(line: Seq<char>)
    requires
        !line.contains('|'),
    ensures
        output::stat_row(line) is None,
    decreases line.len(),
{
    lemma_no_place(line);
}

/// A character that does not occur has no last place.
proof fn lemma_no_place(s: Seq<char>)
    requires
        !s.contains('|'),
    ensures
        output::last_place(s, '|') is None,
    decreases s.len(),
{
    if s.len() > 0 {
        assert(s.contains(s[s.len() - 1]));
        assert forall|i: int| 0 <= i < s.drop_last().len() implies s.drop_last()[i] != '|' by {
            assert(s.contains(s[i]));
        }
        lemma_no_place(s.drop_last());
    }
}

/// Behind the last bar of a row stand white space, a number, a blank and the
/// drawn bar; in front of it stands the path. A line is a row exactly where
/// the path is not empty and the number is one, and not zero.
pub proof fn law_row(front: Seq<char>, gap: Seq<char>, number: Seq<char>, tail: Seq<char>)
    requires
        forall|i: int| 0 <= i < gap.len() ==> text::is_space(#[trigger] gap[i]),
        number.len() > 0,
        !text::is_space(number[0]),
        !number.contains(' '),
        !gap.contains('|'),
        !number.contains('|'),
        !tail.contains('|'),
    ensures
        output::stat_row(front + seq!['|'] + gap + number + seq![' '] + tail) == match text::number_of(
            text::trimmed(number),
        ) {
            Some(n) => if n > 0 && text::trimmed(front).len() > 0 {
                Some(
                    StatRow {
                        path: text::trimmed(front),
                        changes: n,
                        bar: text::trimmed(seq![' '] + tail),
                    },
                )
            } else {
                None
            },
            None => None,
        },
{
    let line = front + seq!['|'] + gap + number + seq![' '] + tail;
    let back = gap + number + seq![' '] + tail;
    let rest = number + (seq![' '] + tail);
    let p = front.len() as int;
    assert(line =~= front + seq!['|'] + back);
    assert forall|j: int| p < j < line.len() implies #[trigger] line[j] != '|' by {
        let k = j - p - 1;
        assert(line[j] == back[k]);
        if k < gap.len() {
            assert(gap.contains(gap[k]));
        } else if k < gap.len() + number.len() {
            assert(number.contains(number[k - gap.len()]));
        } else if k > gap.len() + number.len() {
            assert(tail.contains(tail[k - gap.len() - number.len() - 1]));
        }
    }
    output::lemma_last_place(line, '|', p);
    assert(line.take(p) =~= front);
    assert(line.skip(p + 1) =~= gap + rest);
    text::lemma_trimmed_start(gap, rest);
    assert(rest[0] == number[0]);
    assert(text::trimmed_start(rest) == rest);
    assert forall|j: int| 0 <= j < number.len() implies #[trigger] rest[j] != ' ' by {
        assert(rest[j] == number[j]);
        assert(number.contains(number[j]));
    }
    text::lemma_find_char_is(rest, ' ', number.len() as int);
    assert(rest.take(number.len() as int) =~= number);
    assert(rest.skip(number.len() as int) =~= seq![' '] + tail);
}

/// A line is no row where nothing stands behind its number.
pub proof fn law_number_needs_a_blank(front: Seq<char>, gap: Seq<char>, number: Seq<char>)
    requires
        forall|i: int| 0 <= i < gap.len() ==> text::is_space(#[trigger] gap[i]),
        number.len() > 0 ==> !text::is_space(number[0]),
        !number.contains(' '),
        !gap.contains('|'),
        !number.contains('|'),
    ensures
        output::stat_row(front + seq!['|'] + gap + number) is None,
{
    let line = front + seq!['|'] + gap + number;
    let p = front.len() as int;
    assert forall|j: int| p < j < line.len() implies #[trigger] line[j] != '|' by {
        let k = j - p - 1;
        if k < gap.len() {
            assert(line[j] == gap[k]);
            assert(gap.contains(gap[k]));
        } else {
            assert(line[j] == number[k - gap.len()]);
            assert(number.contains(number[k - gap.len()]));
        }
    }
    output::lemma_last_place(line, '|', p);
    assert(line.skip(p + 1) =~= gap + number);
    text::lemma_trimmed_start(gap, number);
    assert(text::trimmed_start(number) == number);
    assert forall|j: int| 0 <= j < number.len() implies #[trigger] number[j] != ' ' by {
        assert(number.contains(number[j]));
    }
    text::lemma_find_char_is(number, ' ', number.len() as int);
}

} // verus!
