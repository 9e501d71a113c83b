//! What holds of every command: a denied part denies the whole, quotations
//! are not split, and `cd DIR && rest` is taken apart as it was written.

use vstd::prelude::*;
use crate::shell;
use crate::text;

verus! {

// ---------- quotations ----------

/// The quotation that is open behind `c`, where `quote` is open in front.
pub open spec fn quote_past(c: char, quote: Option<char>) -> Option<char> {
    match quote {
        Some(q) => if c == q {
            None
        } else {
            Some(q)
        },
        None => if shell::is_quote(c) {
            Some(c)
        } else {
            None
        },
    }
}

/// The quotation that is open behind `s`, where `quote` is open in front.
pub open spec fn quote_after(s: Seq<char>, quote: Option<char>) -> Option<char>
    decreases s.len(),
{
    if s.len() == 0 {
        quote
    } else {
        quote_after(s.drop_first(), quote_past(s[0], quote))
    }
}

/// Every quotation that `s` opens ends in it.
pub open spec fn is_closed(s: Seq<char>) -> bool {
    quote_after(s, None) is None
}

/// Two texts are read one after the other.
proof fn lemma_quote_after(a: Seq<char>, b: Seq<char>, quote: Option<char>)
    ensures
        quote_after(a + b, quote) == quote_after(b, quote_after(a, quote)),
    decreases a.len(),
{
    if a.len() == 0 {
        assert(a + b =~= b);
    } else {
        assert((a + b).drop_first() =~= a.drop_first() + b);
        lemma_quote_after(a.drop_first(), b, quote_past(a[0], quote));
    }
}

// ---------- lists of commands ----------

/// `op` separates `a` from `b`: it is an operator that separates segments, and
/// what stands beside it does not make another operator of it.
pub open spec fn separates(a: Seq<char>, op: Seq<char>, b: Seq<char>) -> bool {
    ||| op == seq![';']
    ||| op == seq!['\n']
    ||| op == seq!['&', '&'] && !(a.len() > 0 && a.last() == '&')
    ||| op == seq!['|', '|'] && !(a.len() > 0 && a.last() == '|')
    ||| op == seq!['|'] && !(a.len() > 0 && a.last() == '|') && !(b.len() > 0 && b[0] == '|')
}

/// Putting a head in front of the first segment leaves the later ones.
proof fn lemma_headed_concat(head: Seq<char>, x: Seq<Seq<char>>, y: Seq<Seq<char>>)
    requires
        x.len() > 0,
    ensures
        shell::headed(head, x + y) == shell::headed(head, x) + y,
{
    assert(shell::headed(head, x + y) =~= shell::headed(head, x) + y);
}

/// Behind an operator of `s`, no quotation is open.
proof fn lemma_past_separator(s: Seq<char>)
    requires
        shell::separator_len(s) > 0,
    ensures
        shell::separator_len(s) <= s.len(),
        quote_after(s, None) == quote_after(s.skip(shell::separator_len(s)), None),
{
    let n = shell::separator_len(s);
    let t = s.drop_first();
    if n == 1 {
        assert(s.skip(1) =~= t);
    } else {
        assert(t[0] == s[1]);
        assert(s.skip(2) =~= t.drop_first());
        assert(quote_after(t, None) == quote_after(t.drop_first(), None));
    }
}

/// The segments of a list are those of its parts.
proof fn lemma_segments_concat(
    a: Seq<char>,
    op: Seq<char>,
    b: Seq<char>,
    quote: Option<char>,
)
    requires
        quote_after(a, quote) is None,
        separates(a, op, b),
    ensures
        shell::segments_in(a + op + b, quote) == shell::segments_in(a, quote) + shell::segments_in(
            b,
            None,
        ),
    decreases a.len(),
{
    let s = a + op + b;
    let y = shell::segments_in(b, None);
    if a.len() == 0 {
        assert(shell::separator_len(s) == op.len());
        assert(s.skip(op.len() as int) =~= b);
        assert(!shell::is_quote(s[0]));
    } else {
        let t = a.drop_first();
        let c = a[0];
        assert(s.drop_first() =~= t + op + b);
        assert(t.len() > 0 ==> t.last() == a.last());
        if quote is Some {
            lemma_segments_concat(t, op, b, quote_past(c, quote));
            shell::lemma_some_segment(t, quote_past(c, quote));
            lemma_headed_concat(seq![c], shell::segments_in(t, quote_past(c, quote)), y);
        } else if shell::is_quote(c) {
            lemma_segments_concat(t, op, b, Some(c));
            shell::lemma_some_segment(t, Some(c));
            lemma_headed_concat(seq![c], shell::segments_in(t, Some(c)), y);
        } else {
            assert(a.len() > 1 ==> s[1] == a[1]);
            assert(a.len() == 1 ==> s[1] == op[0] && a.last() == c);
            let n = shell::separator_len(a);
            assert(shell::separator_len(s) == n);
            if n > 0 {
                lemma_past_separator(a);
                let u = a.skip(n);
                assert(u.len() > 0 ==> u.last() == a.last());
                assert(s.skip(n) =~= u + op + b);
                lemma_segments_concat(u, op, b, None);
                let x = shell::segments_in(u, None);
                assert(seq![Seq::<char>::empty()] + (x + y) =~= (seq![Seq::<char>::empty()] + x)
                    + y);
            } else {
                lemma_segments_concat(t, op, b, None);
                shell::lemma_some_segment(t, None);
                lemma_headed_concat(seq![c], shell::segments_in(t, None), y);
            }
        }
    }
}

/// A list of commands has the segments of the first and then those of the
/// second.
pub proof fn law_list_is_split(a: Seq<char>, op: Seq<char>, b: Seq<char>)
    requires
        is_closed(a),
        separates(a, op, b),
    ensures
        shell::segments_of(a + op + b) == shell::segments_of(a) + shell::segments_of(b),
{
    lemma_segments_concat(a, op, b, None);
}

/// One denied segment gives a reason.
proof fn lemma_some_reason(segs: Seq<Seq<char>>, k: int)
    requires
        0 <= k < segs.len(),
        shell::segment_reason(segs[k]) is Some,
    ensures
        shell::first_reason(segs) is Some,
    decreases segs.len(),
{
    if k > 0 {
        assert(segs.drop_first()[k - 1] == segs[k]);
        lemma_some_reason(segs.drop_first(), k - 1);
    }
}

/// A reason is that of one segment.
proof fn lemma_reason_of(segs: Seq<Seq<char>>) -> (k: int)
    requires
        shell::first_reason(segs) is Some,
    ensures
        0 <= k < segs.len(),
        shell::segment_reason(segs[k]) is Some,
    decreases segs.len(),
{
    if shell::segment_reason(segs[0]) is Some {
        0
    } else {
        let k = lemma_reason_of(segs.drop_first());
        assert(segs.drop_first()[k] == segs[k + 1]);
        k + 1
    }
}

/// One denied segment denies the command, wherever it stands.
pub proof fn law_denied_segment_denies(cmd: Seq<char>, k: int)
    requires
        0 <= k < shell::segments_of(cmd).len(),
        shell::segment_reason(shell::segments_of(cmd)[k]) is Some,
    ensures
        shell::denial(cmd) is Some,
{
    lemma_some_reason(shell::segments_of(cmd), k);
}

/// What is spelled at the front stays there when more follows.
proof fn lemma_spells_more(s: Seq<char>, y: Seq<char>, pat: Seq<char>)
    requires
        text::spells(s, pat),
    ensures
        text::spells(s + y, pat),
    decreases s.len(),
{
    if pat.len() > 0 {
        assert((s + y).drop_first() =~= s.drop_first() + y);
        if s[0] == pat[0] {
            lemma_spells_more(s.drop_first(), y, pat.drop_first());
        } else {
            lemma_spells_more(s.drop_first(), y, pat);
        }
    }
}

/// A fork bomb in a part is one in the whole.
proof fn lemma_forkbomb_in_whole(x: Seq<char>, s: Seq<char>, y: Seq<char>)
    requires
        shell::is_forkbomb(s),
    ensures
        shell::is_forkbomb(x + s + y),
{
    reveal_strlit(":()");
    let i = choose|i: int| shell::forkbomb_at(s, i);
    let w = x + s + y;
    let j = x.len() + i;
    assert(w.subrange(j, j + 3) =~= s.subrange(i, i + 3));
    assert(w.skip(j + 3) =~= s.skip(i + 3) + y);
    lemma_spells_more(s.skip(i + 3), y, "{:|:&};:"@);
    assert(shell::forkbomb_at(w, j));
}

/// A list of commands is denied if one of its parts is denied by itself.
pub proof fn law_denied_part_denies_list(a: Seq<char>, op: Seq<char>, b: Seq<char>)
    requires
        is_closed(a),
        separates(a, op, b),
        shell::denial(a) is Some || shell::denial(b) is Some,
    ensures
        shell::denial(a + op + b) is Some,
{
    let segs = shell::segments_of(a + op + b);
    law_list_is_split(a, op, b);
    if shell::first_reason(shell::segments_of(a)) is Some {
        let k = lemma_reason_of(shell::segments_of(a));
        assert(segs[k] == shell::segments_of(a)[k]);
        lemma_some_reason(segs, k);
    } else if shell::first_reason(shell::segments_of(b)) is Some {
        let k = lemma_reason_of(shell::segments_of(b));
        let n = shell::segments_of(a).len();
        assert(segs[n + k] == shell::segments_of(b)[k]);
        lemma_some_reason(segs, n + k);
    } else if shell::is_forkbomb(a) {
        lemma_forkbomb_in_whole(Seq::empty(), a, op + b);
        assert(Seq::<char>::empty() + a + (op + b) =~= a + op + b);
    } else {
        lemma_forkbomb_in_whole(a + op, b, Seq::empty());
        assert(a + op + b + Seq::<char>::empty() =~= a + op + b);
    }
}

/// A fork bomb is denied, however its body is spaced and whatever stands
/// around it.
pub proof fn law_forkbomb_is_denied(x: Seq<char>, body: Seq<char>, y: Seq<char>)
    requires
        text::spells(body, "{:|:&};:"@),
    ensures
        shell::denial(x + (":()"@ + body) + y) is Some,
{
    reveal_strlit(":()");
    let s = ":()"@ + body;
    assert(s.subrange(0, 3) =~= ":()"@);
    assert(s.skip(3) =~= body);
    assert(shell::forkbomb_at(s, 0));
    lemma_forkbomb_in_whole(x, s, y);
}

// ---------- the reason for a list ----------

/// `x` with a blank behind its last segment.
spec fn tailed(x: Seq<Seq<char>>) -> Seq<Seq<char>> {
    x.update(x.len() - 1, x.last().push(' '))
}

/// A head in front and a blank behind do not get into each other's way.
proof fn lemma_headed_tailed(head: Seq<char>, x: Seq<Seq<char>>)
    requires
        x.len() > 0,
    ensures
        shell::headed(head, tailed(x)) == tailed(shell::headed(head, x)),
{
    assert(head + x[0].push(' ') =~= (head + x[0]).push(' '));
    assert(shell::headed(head, tailed(x)) =~= tailed(shell::headed(head, x)));
}

/// A blank behind a command is a blank behind its last segment.
proof fn lemma_blank_behind(s: Seq<char>, quote: Option<char>)
    ensures
        shell::segments_in(s.push(' '), quote) == tailed(shell::segments_in(s, quote)),
    decreases s.len(),
{
    let w = s.push(' ');
    if s.len() == 0 {
        let none = Seq::<char>::empty();
        assert(w.drop_first() =~= none);
        assert(seq![' '] + none =~= none.push(' '));
        let next = if quote == Some(' ') {
            None
        } else {
            quote
        };
        assert(shell::segments_in(none, next) =~= seq![none]);
        assert(shell::segments_in(none, None) =~= seq![none]);
        assert(shell::headed(seq![' '], seq![none]) =~= seq![none.push(' ')]);
        assert(tailed(seq![none]) =~= seq![none.push(' ')]);
    } else {
        let t = s.drop_first();
        let c = s[0];
        assert(w[0] == c);
        assert(w.drop_first() =~= t.push(' '));
        if quote is Some || shell::is_quote(c) {
            let next = quote_past(c, quote);
            lemma_blank_behind(t, next);
            shell::lemma_some_segment(t, next);
            lemma_headed_tailed(seq![c], shell::segments_in(t, next));
        } else {
            assert(s.len() > 1 ==> w[1] == s[1]);
            let n = shell::separator_len(s);
            assert(shell::separator_len(w) == n);
            if n > 0 {
                let u = s.skip(n);
                assert(w.skip(n) =~= u.push(' '));
                lemma_blank_behind(u, None);
                shell::lemma_some_segment(u, None);
                let x = shell::segments_in(u, None);
                let front = seq![Seq::<char>::empty()];
                assert(front + tailed(x) =~= tailed(front + x));
            } else {
                lemma_blank_behind(t, None);
                shell::lemma_some_segment(t, None);
                lemma_headed_tailed(seq![c], shell::segments_in(t, None));
            }
        }
    }
}

/// A blank behind text is trimmed away.
proof fn lemma_trimmed_behind(s: Seq<char>)
    ensures
        text::trimmed(s.push(' ')) == text::trimmed(s),
    decreases s.len(),
{
    let w = s.push(' ');
    if s.len() == 0 {
        assert(w.drop_first() =~= s);
    } else if text::is_space(s[0]) {
        assert(w.drop_first() =~= s.drop_first().push(' '));
        lemma_trimmed_behind(s.drop_first());
    } else {
        assert(w[0] == s[0]);
        assert(w.drop_last() =~= s);
    }
}

/// A blank in front of text is trimmed away.
proof fn lemma_trimmed_before(s: Seq<char>)
    ensures
        text::trimmed(seq![' '] + s) == text::trimmed(s),
{
    assert((seq![' '] + s).drop_first() =~= s);
}

/// The first reason where there is one, or else the second.
pub open spec fn either(x: Option<Seq<char>>, y: Option<Seq<char>>) -> Option<Seq<char>> {
    if x is Some {
        x
    } else {
        y
    }
}

/// The first reason among two lists is that of the first, or else that of the
/// second.
proof fn lemma_reason_concat(x: Seq<Seq<char>>, y: Seq<Seq<char>>)
    ensures
        shell::first_reason(x + y) == either(
            shell::first_reason(x),
            shell::first_reason(y),
        ),
    decreases x.len(),
{
    if x.len() == 0 {
        assert(x + y =~= y);
    } else {
        assert((x + y).drop_first() =~= x.drop_first() + y);
        lemma_reason_concat(x.drop_first(), y);
    }
}

/// A blank behind a command changes no reason.
proof fn lemma_reason_behind(s: Seq<char>)
    ensures
        shell::first_reason(shell::segments_in(s.push(' '), None)) == shell::first_reason(
            shell::segments_in(s, None),
        ),
{
    let x = shell::segments_in(s, None);
    lemma_blank_behind(s, None);
    shell::lemma_some_segment(s, None);
    let front = x.drop_last();
    assert(x =~= front + seq![x.last()]);
    assert(tailed(x) =~= front + seq![x.last().push(' ')]);
    lemma_reason_concat(front, seq![x.last()]);
    lemma_reason_concat(front, seq![x.last().push(' ')]);
    lemma_trimmed_behind(x.last());
    assert(shell::segment_reason(x.last()) == shell::segment_reason(x.last().push(' ')));
    lemma_one_reason(x.last());
    lemma_one_reason(x.last().push(' '));
}

/// The reason for one segment.
proof fn lemma_one_reason(s: Seq<char>)
    ensures
        shell::first_reason(seq![s]) == shell::segment_reason(s),
{
    assert(seq![s].drop_first() =~= Seq::<Seq<char>>::empty());
    assert(shell::first_reason(Seq::<Seq<char>>::empty()) is None);
}

/// A blank in front of a command changes no reason.
proof fn lemma_reason_before(s: Seq<char>)
    ensures
        shell::first_reason(shell::segments_in(seq![' '] + s, None)) == shell::first_reason(
            shell::segments_in(s, None),
        ),
{
    let w = seq![' '] + s;
    let x = shell::segments_in(s, None);
    shell::lemma_some_segment(s, None);
    assert(w.drop_first() =~= s);
    assert(shell::separator_len(w) == 0);
    let y = shell::headed(seq![' '], x);
    assert(y[0] == seq![' '] + x[0]);
    assert(y.drop_first() =~= x.drop_first());
    lemma_trimmed_before(x[0]);
}

/// `sep` separates two commands as it is commonly written: a line feed, or an
/// operator between blanks.
pub open spec fn is_written_separator(sep: Seq<char>) -> bool {
    ||| sep == seq!['\n']
    ||| sep == seq![' ', ';', ' ']
    ||| sep == seq![' ', '|', ' ']
    ||| sep == seq![' ', '|', '|', ' ']
    ||| sep == seq![' ', '&', '&', ' ']
}

/// Text that does not begin to define `:` holds no fork bomb.
proof fn lemma_no_forkbomb(s: Seq<char>)
    requires
        !text::has(s, ":()"@),
    ensures
        !shell::is_forkbomb(s),
{
}

/// Where neither part of a list begins to define `:`, neither does the list.
proof fn lemma_no_definition(a: Seq<char>, sep: Seq<char>, b: Seq<char>)
    requires
        is_written_separator(sep),
        !text::has(a, ":()"@),
        !text::has(b, ":()"@),
    ensures
        !text::has(a + sep + b, ":()"@),
{
    reveal_strlit(":()");
    let w = a + sep + b;
    if text::has(w, ":()"@) {
        let i = choose|i: int| text::occurs_at(w, ":()"@, i);
        let o = w.subrange(i, i + 3);
        assert(o[0] == w[i] && o[1] == w[i + 1] && o[2] == w[i + 2]);
        let n = a.len() as int;
        let m = n + sep.len();
        if i + 3 <= n {
            assert(a.subrange(i, i + 3) =~= o);
            assert(text::occurs_at(a, ":()"@, i));
        } else if i >= m {
            assert(b.subrange(i - m, i - m + 3) =~= o);
            assert(text::occurs_at(b, ":()"@, i - m));
        } else {
            let j = if i < n {
                n
            } else {
                i
            };
            assert(w[j] == sep[j - n]);
        }
    }
}

/// A list of commands, neither of which begins to define `:`, is denied for
/// the first of its parts that is denied, and for the reason of that part;
/// where neither is denied, neither is the list.
pub proof fn law_list_reason(a: Seq<char>, sep: Seq<char>, b: Seq<char>)
    requires
        is_closed(a),
        is_written_separator(sep),
        !text::has(a, ":()"@),
        !text::has(b, ":()"@),
    ensures
        shell::denial(a + sep + b) == either(shell::denial(a), shell::denial(b)),
{
    lemma_no_definition(a, sep, b);
    lemma_no_forkbomb(a);
    lemma_no_forkbomb(b);
    lemma_no_forkbomb(a + sep + b);
    if sep.len() == 1 {
        law_list_is_split(a, sep, b);
        lemma_reason_concat(shell::segments_of(a), shell::segments_of(b));
    } else {
        let front = a.push(' ');
        let back = seq![' '] + b;
        let op = sep.subrange(1, sep.len() - 1);
        lemma_quote_after(a, seq![' '], None);
        assert(a + seq![' '] =~= front);
        assert(seq![' '].drop_first() =~= Seq::<char>::empty());
        assert(quote_after(seq![' '].drop_first(), None) is None);
        assert(op =~= seq![';'] || op =~= seq!['|'] || op =~= seq!['|', '|'] || op =~= seq!['&', '&']);
        law_list_is_split(front, op, back);
        assert(front + op + back =~= a + sep + b);
        lemma_reason_behind(a);
        lemma_reason_before(b);
        lemma_reason_concat(shell::segments_of(front), shell::segments_of(back));
    }
}

// ---------- quoted text ----------

/// Inside a quotation nothing separates, up to its end.
proof fn lemma_quoted_segment(inner: Seq<char>, q: char)
    requires
        !inner.contains(q),
    ensures
        shell::segments_in(inner.push(q), Some(q)) == seq![inner.push(q)],
    decreases inner.len(),
{
    let s = inner.push(q);
    if inner.len() == 0 {
        let none = Seq::<char>::empty();
        assert(s.drop_first() =~= none);
        assert(seq![q] + none =~= s);
        assert(shell::segments_in(none, None) =~= seq![none]);
        assert(shell::headed(seq![q], seq![none]) =~= seq![s]);
    } else {
        let t = inner.drop_first();
        assert(inner[0] != q);
        assert forall|i: int| 0 <= i < t.len() implies #[trigger] t[i] != q by {
            assert(t[i] == inner[i + 1]);
        }
        lemma_quoted_segment(t, q);
        assert(s.drop_first() =~= t.push(q));
        assert(seq![inner[0]] + t.push(q) =~= s);
        assert(shell::headed(seq![s[0]], seq![t.push(q)]) =~= seq![s]);
    }
}

/// Quoted text is one segment, whatever it holds.
pub proof fn law_quotation_is_not_split(inner: Seq<char>, q: char)
    requires
        shell::is_quote(q),
        !inner.contains(q),
    ensures
        shell::segments_of(seq![q] + inner + seq![q]) == seq![seq![q] + inner + seq![q]],
{
    let w = seq![q] + inner + seq![q];
    lemma_quoted_segment(inner, q);
    assert(w.drop_first() =~= inner.push(q));
    assert(seq![q] + inner.push(q) =~= w);
    assert(shell::headed(seq![q], seq![inner.push(q)]) =~= seq![w]);
}

// ---------- `cd` prefixes ----------

/// A blank behind text that begins and ends with no white space is trimmed
/// away.
proof fn lemma_trimmed(s: Seq<char>)
    requires
        s.len() > 0,
        !text::is_space(s[0]),
        !text::is_space(s.last()),
    ensures
        text::trimmed(s.push(' ')) == s,
{
    let none = Seq::<char>::empty();
    assert(none + s + seq![' '] =~= s.push(' '));
    text::lemma_trimmed_around(none, s, seq![' ']);
}

/// Text that begins and ends with other characters is stripped already.
pub proof fn lemma_stripped(s: Seq<char>, c: char)
    requires
        s.len() > 0 ==> s[0] != c && s.last() != c,
    ensures
        text::stripped(s, c) == s,
{
}

/// One character on each side is stripped.
proof fn lemma_stripped_around(s: Seq<char>, c: char)
    requires
        !s.contains(c),
    ensures
        text::stripped(seq![c] + s + seq![c], c) == s,
{
    let w = seq![c] + s + seq![c];
    let t = s.push(c);
    assert(w.drop_first() =~= t);
    if s.len() > 0 {
        assert(s.contains(s[0]));
        assert(s.contains(s.last()));
        assert(t[0] == s[0]);
        assert(text::stripped_start(t, c) == t);
        assert(t.drop_last() =~= s);
        assert(text::stripped_end(t, c) == text::stripped_end(s, c));
    } else {
        assert(t.drop_first() =~= s);
        assert(text::stripped_start(t, c) == text::stripped_start(s, c));
        assert(text::stripped_start(s, c) =~= s);
    }
}

/// In front of the first quotation mark, no quotation is open.
pub proof fn lemma_before_quotes(s: Seq<char>, i: int)
    requires
        0 <= i <= s.len(),
        forall|j: int| 0 <= j < i ==> !shell::is_quote(#[trigger] s[j]),
    ensures
        shell::quote_before(s, i) is None,
    decreases i,
{
    if i > 0 {
        lemma_before_quotes(s, i - 1);
    }
}

/// A quotation that begins the text is open until its mark comes again.
proof fn lemma_in_quotes(s: Seq<char>, q: char, i: int)
    requires
        shell::is_quote(q),
        1 <= i <= s.len(),
        s[0] == q,
        forall|j: int| 1 <= j < i ==> #[trigger] s[j] != q,
    ensures
        shell::quote_before(s, i) == Some(q),
    decreases i,
{
    if i > 1 {
        lemma_in_quotes(s, q, i - 1);
    } else {
        assert(shell::quote_before(s, 0) is None);
    }
}

/// The first place where a pattern stands outside quotations.
pub proof fn lemma_first_place(s: Seq<char>, pat: Seq<char>, i: int)
    requires
        shell::top_level_at(s, pat, i),
        forall|j: int| 0 <= j < i ==> !#[trigger] shell::top_level_at(s, pat, j),
    ensures
        shell::top_level_from(s, pat, 0) == Some(i),
{
    shell::lemma_top_level_from(s, pat, 0);
}

/// What stands behind `cd` in `cd WRITTEN && rest`, taken apart.
proof fn lemma_cd_split(written: Seq<char>, rest: Seq<char>)
    requires
        shell::is_plain_directory(written.push(' ')),
        shell::top_level_from(written + " && "@ + rest, "&&"@, 0) == Some(
            written.len() as int + 1,
        ),
    ensures
        shell::cd_split("cd "@ + written + " && "@ + rest) == (
            Some(shell::cd_directory(written.push(' '))),
            text::trimmed_start(rest),
        ),
{
    reveal_strlit("cd ");
    reveal_strlit(" && ");
    let cmd = "cd "@ + written + " && "@ + rest;
    let behind = written + " && "@ + rest;
    let pos = written.len() as int + 1;
    assert(cmd[0] == 'c');
    assert(text::trimmed_start(cmd) == cmd);
    assert(cmd.subrange(0, 3) =~= "cd "@);
    assert(cmd.skip(3) =~= behind);
    assert(behind.take(pos) =~= written.push(' '));
    let tail = behind.skip(pos + 2);
    assert(tail =~= seq![' '] + rest);
    assert(tail.drop_first() =~= rest);
    assert(text::trimmed_start(tail) == text::trimmed_start(rest));
}

/// `cd DIR && rest` gives the directory and the rest, for a directory written
/// without quotation marks.
pub proof fn law_cd_prefix(dir: Seq<char>, rest: Seq<char>)
    requires
        dir.len() > 0,
        !text::is_space(dir[0]),
        !text::is_space(dir.last()),
        forall|i: int| 0 <= i < dir.len() ==> !shell::is_quote(#[trigger] dir[i]),
        !dir.contains(';'),
        !dir.contains('|'),
        !dir.contains('`'),
        !text::has(dir, "&&"@),
    ensures
        shell::cd_split("cd "@ + dir + " && "@ + rest) == (Some(dir), text::trimmed_start(rest)),
{
    reveal_strlit(" && ");
    reveal_strlit("&&");
    let s = dir + " && "@ + rest;
    let n = dir.len() as int;
    assert forall|j: int| 0 <= j < n + 1 implies !shell::is_quote(#[trigger] s[j]) by {
        if j < n {
            assert(s[j] == dir[j]);
        }
    }
    lemma_before_quotes(s, n + 1);
    assert(s.subrange(n + 1, n + 3) =~= "&&"@);
    assert(shell::top_level_at(s, "&&"@, n + 1));
    assert forall|j: int| 0 <= j < n + 1 implies !#[trigger] shell::top_level_at(s, "&&"@, j) by {
        if shell::top_level_at(s, "&&"@, j) {
            let w = s.subrange(j, j + 2);
            assert(w[0] == '&' && w[1] == '&');
            assert(w[0] == s[j] && w[1] == s[j + 1]);
            if j + 2 <= n {
                assert(dir.subrange(j, j + 2) =~= w);
                assert(text::occurs_at(dir, "&&"@, j));
            }
        }
    }
    lemma_first_place(s, "&&"@, n + 1);
    lemma_trimmed(dir);
    assert(!shell::is_quote(dir[0]) && !shell::is_quote(dir[n - 1]));
    lemma_stripped(dir, '"');
    lemma_stripped(dir, '\'');
    lemma_cd_split(dir, rest);
}

/// `cd "DIR" && rest` and `cd 'DIR' && rest` give the directory and the rest;
/// blanks and `&&` in the directory are part of it.
pub proof fn law_quoted_cd_prefix(q: char, dir: Seq<char>, rest: Seq<char>)
    requires
        shell::is_quote(q),
        !dir.contains(q),
        q == '"' && dir.len() > 0 ==> dir[0] != '\'' && dir.last() != '\'',
        !dir.contains(';'),
        !dir.contains('|'),
        !dir.contains('`'),
    ensures
        shell::cd_split("cd "@ + (seq![q] + dir + seq![q]) + " && "@ + rest) == (
            Some(dir),
            text::trimmed_start(rest),
        ),
{
    reveal_strlit(" && ");
    reveal_strlit("&&");
    let written = seq![q] + dir + seq![q];
    let s = written + " && "@ + rest;
    let n = written.len() as int;
    assert forall|j: int| 1 <= j < n - 1 implies #[trigger] s[j] != q by {
        assert(s[j] == dir[j - 1]);
    }
    lemma_in_quotes(s, q, n - 1);
    assert(s[n - 1] == q);
    assert(shell::quote_before(s, n) is None);
    assert(s[n] == ' ');
    assert(shell::quote_before(s, n + 1) is None);
    assert(s.subrange(n + 1, n + 3) =~= "&&"@);
    assert(shell::top_level_at(s, "&&"@, n + 1));
    assert forall|j: int| 0 <= j < n + 1 implies !#[trigger] shell::top_level_at(s, "&&"@, j) by {
        if shell::top_level_at(s, "&&"@, j) {
            let w = s.subrange(j, j + 2);
            assert(w[0] == '&' && w[0] == s[j]);
            if 1 <= j < n {
                lemma_in_quotes(s, q, j);
            }
        }
    }
    lemma_first_place(s, "&&"@, n + 1);
    lemma_trimmed(written);
    assert(written[0] == q && written.last() == q);
    assert forall|c: char| c != q && !dir.contains(c) implies !#[trigger] written.contains(c) by {
        assert forall|j: int| 0 <= j < written.len() implies #[trigger] written[j] != c by {
            if 0 < j < n - 1 {
                assert(written[j] == dir[j - 1]);
            }
        }
    }
    lemma_stripped_around(dir, q);
    if q == '"' {
        lemma_stripped(dir, '\'');
    } else {
        lemma_stripped(written, '"');
    }
    lemma_cd_split(written, rest);
}

} // verus!
