//! What holds of words, lines, searches and numbers in every text.

use vstd::prelude::*;
use crate::text;

verus! {

// ---------- white space ----------

/// The blank, the tab and the line ends are white space; the visible
/// characters of ASCII are not.
pub proof fn law_ascii_space(c: char)
    ensures
        c == ' ' || c == '\t' || c == '\n' || c == '\r' ==> text::is_space(c),
        0x21 <= (c as u32) <= 0x7e ==> !text::is_space(c),
{
}

/// White space is what Unicode calls so.
pub proof fn law_space(c: char)
    ensures
        text::is_space(c) <==> seq![
            '\t',
            '\n',
            '\u{b}',
            '\u{c}',
            '\r',
            ' ',
            '\u{85}',
            '\u{a0}',
            '\u{1680}',
            '\u{2000}',
            '\u{2001}',
            '\u{2002}',
            '\u{2003}',
            '\u{2004}',
            '\u{2005}',
            '\u{2006}',
            '\u{2007}',
            '\u{2008}',
            '\u{2009}',
            '\u{200a}',
            '\u{2028}',
            '\u{2029}',
            '\u{202f}',
            '\u{205f}',
            '\u{3000}',
        ].contains(c),
{
    let l = seq![
        '\t',
        '\n',
        '\u{b}',
        '\u{c}',
        '\r',
        ' ',
        '\u{85}',
        '\u{a0}',
        '\u{1680}',
        '\u{2000}',
        '\u{2001}',
        '\u{2002}',
        '\u{2003}',
        '\u{2004}',
        '\u{2005}',
        '\u{2006}',
        '\u{2007}',
        '\u{2008}',
        '\u{2009}',
        '\u{200a}',
        '\u{2028}',
        '\u{2029}',
        '\u{202f}',
        '\u{205f}',
        '\u{3000}',
    ];
    assert(l[0] == '\t' && l[1] == '\n' && l[2] == '\u{b}' && l[3] == '\u{c}' && l[4] == '\r');
    assert(l[5] == ' ' && l[6] == '\u{85}' && l[7] == '\u{a0}' && l[8] == '\u{1680}');
    assert(l[9] == '\u{2000}' && l[10] == '\u{2001}' && l[11] == '\u{2002}' && l[12] == '\u{2003}');
    assert(l[13] == '\u{2004}' && l[14] == '\u{2005}' && l[15] == '\u{2006}' && l[16] == '\u{2007}');
    assert(l[17] == '\u{2008}' && l[18] == '\u{2009}' && l[19] == '\u{200a}' && l[20] == '\u{2028}');
    assert(l[21] == '\u{2029}' && l[22] == '\u{202f}' && l[23] == '\u{205f}' && l[24] == '\u{3000}');
}

/// Something is left of a text that is trimmed exactly where it holds more
/// than white space.
pub proof fn law_blank_text(s: Seq<char>)
    ensures
        text::trimmed(s).len() > 0 <==> exists|i: int|
            0 <= i < s.len() && !text::is_space(#[trigger] s[i]),
    decreases s.len(),
{
    if s.len() > 0 && text::is_space(s[0]) {
        let t = s.drop_first();
        law_blank_text(t);
        if exists|i: int| 0 <= i < t.len() && !text::is_space(#[trigger] t[i]) {
            let i = choose|i: int| 0 <= i < t.len() && !text::is_space(#[trigger] t[i]);
            assert(!text::is_space(s[i + 1]));
        }
        if exists|i: int| 0 <= i < s.len() && !text::is_space(#[trigger] s[i]) {
            let i = choose|i: int| 0 <= i < s.len() && !text::is_space(#[trigger] s[i]);
            assert(!text::is_space(t[i - 1]));
        }
    } else {
        lemma_trimmed_end_keeps(s);
    }
}

/// Text that begins with no white space keeps its beginning.
proof fn lemma_trimmed_end_keeps(s: Seq<char>)
    requires
        s.len() > 0 ==> !text::is_space(s[0]),
    ensures
        text::trimmed_end(s).len() > 0 <==> s.len() > 0,
    decreases s.len(),
{
    if s.len() > 0 && text::is_space(s.last()) {
        lemma_trimmed_end_keeps(s.drop_last());
    }
}

/// White space in front of text that begins with none is what is trimmed from
/// its front.
pub proof fn law_trimmed_start(l: Seq<char>, s: Seq<char>)
    requires
        forall|i: int| 0 <= i < l.len() ==> text::is_space(#[trigger] l[i]),
        s.len() > 0 ==> !text::is_space(s[0]),
    ensures
        text::trimmed_start(l + s) == s,
{
    text::lemma_trimmed_start(l, s);
}

/// White space around text that begins and ends with none is what is trimmed
/// from it.
pub proof fn law_trimmed(l: Seq<char>, s: Seq<char>, r: Seq<char>)
    requires
        forall|i: int| 0 <= i < l.len() ==> text::is_space(#[trigger] l[i]),
        forall|i: int| 0 <= i < r.len() ==> text::is_space(#[trigger] r[i]),
        s.len() > 0 ==> !text::is_space(s[0]) && !text::is_space(s.last()),
    ensures
        text::trimmed(l + s + r) == s,
{
    text::lemma_trimmed_around(l, s, r);
}

// ---------- words ----------

/// Text without white space is one word; no text is no word.
pub proof fn law_one_word(w: Seq<char>)
    requires
        forall|i: int| 0 <= i < w.len() ==> !text::is_space(#[trigger] w[i]),
    ensures
        text::words_of(w) == if w.len() > 0 {
            seq![w]
        } else {
            Seq::empty()
        },
{
    if w.len() > 0 {
        text::lemma_word_len(w);
        let n = text::word_len(w) as int;
        assert(n == w.len()) by {
            if n < w.len() {
                assert(text::is_space(w[n]));
            }
        }
        assert(!text::is_space(w[0]));
        assert(w.take(n) =~= w);
        assert(w.skip(n) =~= Seq::<char>::empty());
        assert(seq![w] + text::words_of(w.skip(n)) =~= seq![w]);
    }
}

/// A white-space character parts the words in front of it from those behind.
pub proof fn law_words_at_space(a: Seq<char>, c: char, b: Seq<char>)
    requires
        text::is_space(c),
    ensures
        text::words_of(a + seq![c] + b) == text::words_of(a) + text::words_of(b),
    decreases a.len(),
{
    let s = a + seq![c] + b;
    let none = Seq::<Seq<char>>::empty();
    if a.len() == 0 {
        assert(s.drop_first() =~= b);
        assert(none + text::words_of(b) =~= text::words_of(b));
    } else if text::is_space(a[0]) {
        assert(s.drop_first() =~= a.drop_first() + seq![c] + b);
        law_words_at_space(a.drop_first(), c, b);
    } else {
        text::lemma_word_len(a);
        text::lemma_word_len(s);
        let n = text::word_len(a) as int;
        let m = text::word_len(s) as int;
        assert(m == n) by {
            if m < n {
                assert(s[m] == a[m]);
            }
            if n < m {
                assert(s[n] == if n < a.len() {
                    a[n]
                } else {
                    c
                });
            }
        }
        assert(n > 0);
        assert(s.take(n) =~= a.take(n));
        assert(s.skip(n) =~= a.skip(n) + seq![c] + b);
        law_words_at_space(a.skip(n), c, b);
        assert(seq![a.take(n)] + (text::words_of(a.skip(n)) + text::words_of(b)) =~= (seq![
            a.take(n),
        ] + text::words_of(a.skip(n))) + text::words_of(b));
    }
}

/// The words behind white space are those without it.
pub proof fn lemma_words_behind(l: Seq<char>, s: Seq<char>)
    requires
        forall|i: int| 0 <= i < l.len() ==> text::is_space(#[trigger] l[i]),
    ensures
        text::words_of(l + s) == text::words_of(s),
    decreases l.len(),
{
    if l.len() == 0 {
        assert(l + s =~= s);
    } else {
        let t = l.drop_first();
        assert(text::is_space(l[0]));
        assert forall|i: int| 0 <= i < t.len() implies text::is_space(#[trigger] t[i]) by {
            assert(t[i] == l[i + 1]);
        }
        assert((l + s).drop_first() =~= t + s);
        lemma_words_behind(t, s);
    }
}

/// The words of a text are those of what is left when it is trimmed.
pub proof fn lemma_words_trimmed(s: Seq<char>)
    ensures
        text::words_of(text::trimmed(s)) == text::words_of(s),
    decreases s.len(),
{
    if s.len() > 0 && text::is_space(s[0]) {
        lemma_words_trimmed(s.drop_first());
    } else {
        assert(text::trimmed_start(s) == s);
        lemma_words_trimmed_end(s);
    }
}

/// The words of a text are those of what is left when its end is trimmed.
proof fn lemma_words_trimmed_end(s: Seq<char>)
    ensures
        text::words_of(text::trimmed_end(s)) == text::words_of(s),
    decreases s.len(),
{
    if s.len() > 0 && text::is_space(s.last()) {
        let t = s.drop_last();
        let none = Seq::<char>::empty();
        lemma_words_trimmed_end(t);
        assert(s =~= t + seq![s.last()] + none);
        law_words_at_space(t, s.last(), none);
        assert(text::words_of(t) + text::words_of(none) =~= text::words_of(t));
    }
}

/// The first word is what stands in front of the next white space, behind any
/// at the front; white space alone has none.
pub proof fn law_first_word(l: Seq<char>, w: Seq<char>, b: Seq<char>)
    requires
        forall|i: int| 0 <= i < l.len() ==> text::is_space(#[trigger] l[i]),
        forall|i: int| 0 <= i < w.len() ==> !text::is_space(#[trigger] w[i]),
        w.len() == 0 ==> b.len() == 0,
        b.len() > 0 ==> text::is_space(b[0]),
    ensures
        text::first_word_of(l + w + b) == w,
{
    assert(l + w + b =~= l + (w + b));
    lemma_words_behind(l, w + b);
    law_one_word(w);
    if b.len() > 0 {
        assert(w + b =~= w + seq![b[0]] + b.drop_first());
        law_words_at_space(w, b[0], b.drop_first());
        assert(text::words_of(w + b)[0] == w);
    } else {
        assert(w + b =~= w);
        if w.len() == 0 {
            assert(w =~= Seq::<char>::empty());
        }
    }
}

// ---------- searching ----------

/// A pattern stands in a text where the text is something, the pattern and
/// something, and only there; it begins the text where nothing comes first.
pub proof fn law_found_in_the_middle(s: Seq<char>, pat: Seq<char>)
    ensures
        text::has(s, pat) <==> exists|a: Seq<char>, b: Seq<char>| s == #[trigger] (a + pat + b),
        text::begins(s, pat) <==> exists|b: Seq<char>| s == #[trigger] (pat + b),
{
    if text::has(s, pat) {
        let i = choose|i: int| text::occurs_at(s, pat, i);
        let a = s.take(i);
        let b = s.skip(i + pat.len());
        assert(s =~= a + pat + b) by {
            assert forall|k: int| 0 <= k < s.len() implies s[k] == (a + pat + b)[k] by {
                if i <= k < i + pat.len() {
                    assert(s.subrange(i, i + pat.len())[k - i] == s[k]);
                }
            }
        }
    }
    if exists|a: Seq<char>, b: Seq<char>| s == #[trigger] (a + pat + b) {
        let (a, b) = choose|a: Seq<char>, b: Seq<char>| s == #[trigger] (a + pat + b);
        let i = a.len() as int;
        assert(s.subrange(i, i + pat.len()) =~= pat);
        assert(text::occurs_at(s, pat, i));
    }
    if text::begins(s, pat) {
        let b = s.skip(pat.len() as int);
        assert(s =~= pat + b) by {
            assert forall|k: int| 0 <= k < s.len() implies s[k] == (pat + b)[k] by {
                if k < pat.len() {
                    assert(s.subrange(0, pat.len() as int)[k] == s[k]);
                }
            }
        }
    }
    if exists|b: Seq<char>| s == #[trigger] (pat + b) {
        let b = choose|b: Seq<char>| s == #[trigger] (pat + b);
        assert(s.subrange(0, pat.len() as int) =~= pat);
    }
}

// ---------- lines ----------

/// A line feed ends a line, together with one carriage return in front of it.
pub proof fn law_line_feed_ends_a_line(a: Seq<char>, b: Seq<char>)
    requires
        !a.contains('\n'),
    ensures
        text::lines_of(a + seq!['\n'] + b) == seq![
            if a.len() > 0 && a.last() == '\r' {
                a.drop_last()
            } else {
                a
            },
        ] + text::lines_of(b),
{
    let s = a + seq!['\n'] + b;
    let n = a.len() as int;
    assert forall|j: int| 0 <= j < n implies #[trigger] s[j] != '\n' by {
        assert(s[j] == a[j]);
    }
    text::lemma_find_char_is(s, '\n', n);
    assert(s.take(n) =~= a);
    assert(s.skip(n + 1) =~= b);
}

/// The last line may lack its line feed; no text is no line.
pub proof fn law_last_line(a: Seq<char>)
    requires
        !a.contains('\n'),
    ensures
        text::lines_of(a) == if a.len() > 0 {
            seq![a]
        } else {
            Seq::empty()
        },
{
    if a.len() > 0 {
        assert forall|j: int| 0 <= j < a.len() implies #[trigger] a[j] != '\n' by {}
        text::lemma_find_char_is(a, '\n', a.len() as int);
    }
}

// ---------- lists and numbers ----------

/// A list is written with the separator between neighbours, and nowhere else.
pub proof fn law_joined(parts: Seq<Seq<char>>, last: Seq<char>, sep: Seq<char>)
    ensures
        text::joined(parts.push(last), sep) == if parts.len() == 0 {
            last
        } else {
            text::joined(parts, sep) + sep + last
        },
{
    assert(parts.push(last).drop_last() =~= parts);
}

/// A digit behind the digits of a number makes it ten times as large and adds
/// the digit; a single digit is its own number.
pub proof fn law_decimal(n: nat, d: nat)
    requires
        d < 10,
    ensures
        text::decimal_of(d) == seq![('0' as nat + d) as char],
        n > 0 ==> text::decimal_of(10 * n + d) == text::decimal_of(n).push(
            ('0' as nat + d) as char,
        ),
{
    assert((10 * n + d) % 10 == d);
    assert((10 * n + d) / 10 == n);
}

/// Digits are read as the number that they write, a further digit making it
/// ten times as large; a plus sign in front makes no difference. No digits, a
/// character that is none, or a number beyond 64 bits, is not read.
pub proof fn law_number(s: Seq<char>, c: char)
    ensures
        text::number_of(Seq::empty()) is None,
        text::number_of(seq!['+']) is None,
        '0' <= c && c <= '9' ==> text::number_of(seq![c]) == Some((c as u64 - '0' as u64) as u64),
        s.len() > 0 && s[0] != '+' ==> text::number_of(seq!['+'] + s) == text::number_of(s),
        s.len() > 0 && s[0] != '+' ==> text::number_of(s.push(c)) == match text::number_of(s) {
            Some(n) => if '0' <= c && c <= '9' && 10 * n + (c as int - '0' as int) <= u64::MAX {
                Some((10 * n + (c as int - '0' as int)) as u64)
            } else {
                None
            },
            None => None,
        },
{
    let none = Seq::<char>::empty();
    assert(seq!['+'].skip(1) =~= none);
    assert(seq![c].drop_last() =~= none);
    assert(text::value_of(none) == 0);
    if '0' <= c && c <= '9' {
        assert(seq![c].last() == c);
        assert(text::value_of(seq![c]) == c as int - '0' as int);
        assert(text::all_digits(seq![c]));
    }
    assert((seq!['+'] + s).skip(1) =~= s);
    if s.len() > 0 && s[0] != '+' {
        let t = s.push(c);
        assert(t.drop_last() =~= s);
        assert(t[0] == s[0]);
        assert(t.last() == c);
        assert(text::value_of(t) == 10 * text::value_of(s) + text::digit_value(c));
        if text::all_digits(s) && text::is_digit(c) {
            assert forall|i: int| 0 <= i < t.len() implies text::is_digit(#[trigger] t[i]) by {
                if i < s.len() {
                    assert(t[i] == s[i]);
                }
            }
        }
        if text::all_digits(t) {
            assert forall|i: int| 0 <= i < s.len() implies text::is_digit(#[trigger] s[i]) by {
                assert(t[i] == s[i]);
            }
            assert(text::is_digit(t[s.len() as int]));
        }
        if text::all_digits(s) {
            lemma_value_is_positive(s);
        }
    }
}

/// Digits write no negative number.
proof fn lemma_value_is_positive(s: Seq<char>)
    requires
        text::all_digits(s),
    ensures
        text::value_of(s) >= 0,
    decreases s.len(),
{
    if s.len() > 0 {
        let t = s.drop_last();
        assert forall|i: int| 0 <= i < t.len() implies text::is_digit(#[trigger] t[i]) by {
            assert(t[i] == s[i]);
        }
        assert(text::is_digit(s[s.len() - 1]));
        lemma_value_is_positive(t);
    }
}

/// A text spells a pattern where blanks and tabs at most stand in front of
/// each of its characters.
pub proof fn law_spelled(l: Seq<char>, s: Seq<char>, c: char, pat: Seq<char>)
    requires
        forall|i: int| 0 <= i < l.len() ==> #[trigger] l[i] == ' ' || l[i] == '\t',
        c != ' ',
        c != '\t',
    ensures
        text::spells(s, Seq::empty()),
        text::spells(l + seq![c] + s, seq![c] + pat) == text::spells(s, pat),
        s.len() > 0 && s[0] != ' ' && s[0] != '\t' && s[0] != c ==> !text::spells(
            l + s,
            seq![c] + pat,
        ),
        !text::spells(l, seq![c] + pat),
    decreases l.len(),
{
    let p = seq![c] + pat;
    assert(p.drop_first() =~= pat);
    if l.len() == 0 {
        assert((l + seq![c] + s).drop_first() =~= s);
        assert(l + s =~= s);
    } else {
        let t = l.drop_first();
        assert(l[0] == ' ' || l[0] == '\t');
        assert forall|i: int| 0 <= i < t.len() implies #[trigger] t[i] == ' ' || t[i] == '\t' by {
            assert(t[i] == l[i + 1]);
        }
        assert((l + seq![c] + s).drop_first() =~= t + seq![c] + s);
        assert((l + s).drop_first() =~= t + s);
        law_spelled(t, s, c, pat);
    }
}

/// The characters `c` in front, and no others, are stripped from the front.
pub proof fn law_stripped_start(l: Seq<char>, s: Seq<char>, c: char)
    requires
        forall|i: int| 0 <= i < l.len() ==> #[trigger] l[i] == c,
        s.len() > 0 ==> s[0] != c,
    ensures
        text::stripped_start(l + s, c) == s,
    decreases l.len(),
{
    if l.len() == 0 {
        assert(l + s =~= s);
    } else {
        let t = l.drop_first();
        assert(l[0] == c);
        assert forall|i: int| 0 <= i < t.len() implies #[trigger] t[i] == c by {
            assert(t[i] == l[i + 1]);
        }
        assert((l + s).drop_first() =~= t + s);
        law_stripped_start(t, s, c);
    }
}

/// The characters `c` at both ends, and no others, are stripped.
pub proof fn law_stripped(l: Seq<char>, s: Seq<char>, r: Seq<char>, c: char)
    requires
        forall|i: int| 0 <= i < l.len() ==> #[trigger] l[i] == c,
        forall|i: int| 0 <= i < r.len() ==> #[trigger] r[i] == c,
        s.len() > 0,
        s[0] != c,
        s.last() != c,
    ensures
        text::stripped(l + s + r, c) == s,
    decreases r.len(),
{
    assert(l + s + r =~= l + (s + r));
    assert((s + r)[0] == s[0]);
    law_stripped_start(l, s + r, c);
    lemma_stripped_end(s, r, c);
}

/// The characters `c` at the end are stripped.
proof fn lemma_stripped_end(s: Seq<char>, r: Seq<char>, c: char)
    requires
        forall|i: int| 0 <= i < r.len() ==> #[trigger] r[i] == c,
        s.len() > 0,
        s.last() != c,
    ensures
        text::stripped_end(s + r, c) == s,
    decreases r.len(),
{
    if r.len() == 0 {
        assert(s + r =~= s);
    } else {
        assert(r[r.len() - 1] == c);
        assert((s + r).last() == r.last());
        assert((s + r).drop_last() =~= s + r.drop_last());
        lemma_stripped_end(s, r.drop_last(), c);
    }
}

} // verus!
