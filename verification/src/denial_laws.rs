//! What holds of every command: which are denied, and where a command is cut.

use vstd::prelude::*;
use crate::shell;
use crate::shell_laws;
use crate::text;
use crate::text_laws;

verus! {

// ---------- words ----------

/// The words that the rules speak of, character by character.
proof fn lemma_literals()
    ensures
        "rm"@ == seq!['r', 'm'],
        "-"@ == seq!['-'],
        "--"@ == seq!['-', '-'],
        "--recursive"@ == seq!['-', '-', 'r', 'e', 'c', 'u', 'r', 's', 'i', 'v', 'e'],
        "/"@ == seq!['/'],
        "/*"@ == seq!['/', '*'],
        "of=/dev/"@ == seq!['o', 'f', '=', '/', 'd', 'e', 'v', '/'],
        "shutdown"@ == seq!['s', 'h', 'u', 't', 'd', 'o', 'w', 'n'],
        "reboot"@ == seq!['r', 'e', 'b', 'o', 'o', 't'],
        "halt"@ == seq!['h', 'a', 'l', 't'],
        "poweroff"@ == seq!['p', 'o', 'w', 'e', 'r', 'o', 'f', 'f'],
        "init"@ == seq!['i', 'n', 'i', 't'],
        "0"@ == seq!['0'],
        "6"@ == seq!['6'],
        "mkfs"@ == seq!['m', 'k', 'f', 's'],
        "dd"@ == seq!['d', 'd'],
        "init "@ == seq!['i', 'n', 'i', 't', ' '],
        "rm -rf /"@ == seq!['r', 'm', ' ', '-', 'r', 'f', ' ', '/'],
        "forkbomb"@ == seq!['f', 'o', 'r', 'k', 'b', 'o', 'm', 'b'],
        "dd of=/dev/..."@ == seq![
            'd',
            'd',
            ' ',
            'o',
            'f',
            '=',
            '/',
            'd',
            'e',
            'v',
            '/',
            '.',
            '.',
            '.',
        ],
        ":(){ :|:& };:"@ == seq![':', '(', ')', '{', ' ', ':', '|', ':', '&', ' ', '}', ';', ':'],
        ":()"@ == seq![':', '(', ')'],
        "{:|:&};:"@ == seq!['{', ':', '|', ':', '&', '}', ';', ':'],
{
    reveal_strlit("rm");
    reveal_strlit("-");
    reveal_strlit("--");
    reveal_strlit("--recursive");
    reveal_strlit("/");
    reveal_strlit("/*");
    reveal_strlit("of=/dev/");
    reveal_strlit("shutdown");
    reveal_strlit("reboot");
    reveal_strlit("halt");
    reveal_strlit("poweroff");
    reveal_strlit("init");
    reveal_strlit("0");
    reveal_strlit("6");
    reveal_strlit("mkfs");
    reveal_strlit("dd");
    reveal_strlit("init ");
    reveal_strlit("rm -rf /");
    reveal_strlit("forkbomb");
    reveal_strlit("dd of=/dev/...");
    reveal_strlit(":(){ :|:& };:");
    reveal_strlit(":()");
    reveal_strlit("{:|:&};:");
}

/// An option that asks to go into directories: `r` or `R` among the letters
/// behind a single dash, or the long word.
proof fn lemma_recursive_option(a: Seq<char>)
    ensures
        shell::is_recursive_option(a) <==> {
            ||| a.len() > 1 && a[0] == '-' && a[1] != '-' && exists|k: int|
                1 <= k < a.len() && (#[trigger] a[k] == 'r' || a[k] == 'R')
            ||| a == seq!['-', '-', 'r', 'e', 'c', 'u', 'r', 's', 'i', 'v', 'e']
        },
{
    lemma_literals();
    if a.len() > 0 {
        assert(a.subrange(0, 1)[0] == a[0]);
        assert(a[0] == '-' ==> a.subrange(0, 1) =~= seq!['-']);
        assert(seq!['-'][0] == '-');
    }
    if a.len() > 1 {
        assert(a.subrange(0, 2)[0] == a[0] && a.subrange(0, 2)[1] == a[1]);
        assert(seq!['-', '-'][1] == '-');
        assert(a[0] == '-' && a[1] == '-' ==> a.subrange(0, 2) =~= seq!['-', '-']);
    }
}

/// An output that is a device.
proof fn lemma_device_output(a: Seq<char>)
    ensures
        shell::is_device_output(a) <==> {
            &&& a.len() >= 8
            &&& a[0] == 'o'
            &&& a[1] == 'f'
            &&& a[2] == '='
            &&& a[3] == '/'
            &&& a[4] == 'd'
            &&& a[5] == 'e'
            &&& a[6] == 'v'
            &&& a[7] == '/'
        },
{
    lemma_literals();
    let p = seq!['o', 'f', '=', '/', 'd', 'e', 'v', '/'];
    if a.len() >= 8 {
        let f = a.subrange(0, 8);
        assert(f[0] == a[0] && f[1] == a[1] && f[2] == a[2] && f[3] == a[3]);
        assert(f[4] == a[4] && f[5] == a[5] && f[6] == a[6] && f[7] == a[7]);
        assert(p[0] == 'o' && p[1] == 'f' && p[2] == '=' && p[3] == '/');
        assert(p[4] == 'd' && p[5] == 'e' && p[6] == 'v' && p[7] == '/');
        if a[0] == 'o' && a[1] == 'f' && a[2] == '=' && a[3] == '/' && a[4] == 'd' && a[5] == 'e'
            && a[6] == 'v' && a[7] == '/' {
            assert(f =~= p);
        }
    }
}

/// A command that makes a file system.
proof fn lemma_makes_file_system(a: Seq<char>)
    ensures
        text::begins(a, "mkfs"@) <==> a.len() >= 4 && a[0] == 'm' && a[1] == 'k' && a[2] == 'f'
            && a[3] == 's',
{
    lemma_literals();
    let p = seq!['m', 'k', 'f', 's'];
    if a.len() >= 4 {
        let f = a.subrange(0, 4);
        assert(f[0] == a[0] && f[1] == a[1] && f[2] == a[2] && f[3] == a[3]);
        assert(p[0] == 'm' && p[1] == 'k' && p[2] == 'f' && p[3] == 's');
        if a[0] == 'm' && a[1] == 'k' && a[2] == 'f' && a[3] == 's' {
            assert(f =~= p);
        }
    }
}

/// A removal of everything: `rm`, an option to go into directories, and the
/// root or all that is in it, in any order behind it.
pub open spec fn removes_everything(w: Seq<Seq<char>>) -> bool {
    &&& w.len() > 0
    &&& w[0] == seq!['r', 'm']
    &&& exists|i: int|
        1 <= i < w.len() && {
            ||| (#[trigger] w[i]).len() > 1 && w[i][0] == '-' && w[i][1] != '-' && exists|k: int|
                1 <= k < w[i].len() && (#[trigger] w[i][k] == 'r' || w[i][k] == 'R')
            ||| w[i] == seq!['-', '-', 'r', 'e', 'c', 'u', 'r', 's', 'i', 'v', 'e']
        }
    &&& exists|j: int|
        1 <= j < w.len() && (#[trigger] w[j] == seq!['/'] || w[j] == seq!['/', '*'])
}

/// A command that stops or restarts the machine.
pub open spec fn stops_the_machine(w: Seq<Seq<char>>) -> bool {
    w.len() > 0 && {
        ||| w[0] == seq!['s', 'h', 'u', 't', 'd', 'o', 'w', 'n']
        ||| w[0] == seq!['r', 'e', 'b', 'o', 'o', 't']
        ||| w[0] == seq!['h', 'a', 'l', 't']
        ||| w[0] == seq!['p', 'o', 'w', 'e', 'r', 'o', 'f', 'f']
    }
}

/// `init` with a run level that stops or restarts the machine.
pub open spec fn changes_run_level(w: Seq<Seq<char>>) -> bool {
    w.len() > 1 && w[0] == seq!['i', 'n', 'i', 't'] && (w[1] == seq!['0'] || w[1] == seq!['6'])
}

/// A command whose name begins with `mkfs`.
pub open spec fn makes_file_system(w: Seq<Seq<char>>) -> bool {
    w.len() > 0 && w[0].len() >= 4 && w[0][0] == 'm' && w[0][1] == 'k' && w[0][2] == 'f'
        && w[0][3] == 's'
}

/// `dd` onto a device.
pub open spec fn writes_device(w: Seq<Seq<char>>) -> bool {
    w.len() > 0 && w[0] == seq!['d', 'd'] && exists|i: int|
        {
            &&& 0 <= i < w.len()
            &&& (#[trigger] w[i]).len() >= 8
            &&& w[i][0] == 'o'
            &&& w[i][1] == 'f'
            &&& w[i][2] == '='
            &&& w[i][3] == '/'
            &&& w[i][4] == 'd'
            &&& w[i][5] == 'e'
            &&& w[i][6] == 'v'
            &&& w[i][7] == '/'
        }
}

/// The rule on removals, by the characters of the words.
proof fn lemma_removes_everything(w: Seq<Seq<char>>)
    requires
        w.len() > 0,
    ensures
        shell::removes_root(w) <==> removes_everything(w),
{
    lemma_literals();
    if shell::removes_root(w) {
        let i = choose|i: int| 1 <= i < w.len() && shell::is_recursive_option(#[trigger] w[i]);
        lemma_recursive_option(w[i]);
        let j = choose|j: int| 1 <= j < w.len() && shell::is_root_target(#[trigger] w[j]);
        assert(w[j] == seq!['/'] || w[j] == seq!['/', '*']);
    }
    if removes_everything(w) {
        let i = choose|i: int|
            1 <= i < w.len() && {
                ||| (#[trigger] w[i]).len() > 1 && w[i][0] == '-' && w[i][1] != '-' && exists|
                    k: int,
                | 1 <= k < w[i].len() && (#[trigger] w[i][k] == 'r' || w[i][k] == 'R')
                ||| w[i] == seq!['-', '-', 'r', 'e', 'c', 'u', 'r', 's', 'i', 'v', 'e']
            };
        lemma_recursive_option(w[i]);
        assert(shell::is_recursive_option(w[i]));
        let j = choose|j: int|
            1 <= j < w.len() && (#[trigger] w[j] == seq!['/'] || w[j] == seq!['/', '*']);
        assert(shell::is_root_target(w[j]));
    }
}

/// The rule on devices, by the characters of the words.
proof fn lemma_writes_device(w: Seq<Seq<char>>)
    requires
        w.len() > 0,
    ensures
        shell::overwrites_device(w) <==> writes_device(w),
{
    lemma_literals();
    if shell::overwrites_device(w) {
        let i = choose|i: int| 0 <= i < w.len() && shell::is_device_output(#[trigger] w[i]);
        lemma_device_output(w[i]);
    }
    if writes_device(w) {
        let i = choose|i: int|
            {
                &&& 0 <= i < w.len()
                &&& (#[trigger] w[i]).len() >= 8
                &&& w[i][0] == 'o'
                &&& w[i][1] == 'f'
                &&& w[i][2] == '='
                &&& w[i][3] == '/'
                &&& w[i][4] == 'd'
                &&& w[i][5] == 'e'
                &&& w[i][6] == 'v'
                &&& w[i][7] == '/'
            };
        lemma_device_output(w[i]);
        assert(shell::is_device_output(w[i]));
    }
}

/// A segment is denied exactly where its words remove everything, stop the
/// machine, change the run level so, make a file system or write on a device,
/// or where it holds the fork bomb as it is commonly written. The reason says
/// which.
pub proof fn law_segment_is_denied_exactly(seg: Seq<char>)
    ensures
        ({
            let w = text::words_of(seg);
            let bomb = w.len() > 0 && text::has(
                text::trimmed(seg),
                seq![':', '(', ')', '{', ' ', ':', '|', ':', '&', ' ', '}', ';', ':'],
            );
            let r = shell::segment_reason(seg);
            &&& r is Some <==> {
                ||| removes_everything(w)
                ||| stops_the_machine(w)
                ||| changes_run_level(w)
                ||| makes_file_system(w)
                ||| writes_device(w)
                ||| bomb
            }
            &&& removes_everything(w) ==> r == Some(seq!['r', 'm', ' ', '-', 'r', 'f', ' ', '/'])
            &&& stops_the_machine(w) ==> r == Some(w[0])
            &&& changes_run_level(w) ==> r == Some(seq!['i', 'n', 'i', 't', ' '] + w[1])
            &&& makes_file_system(w) ==> r == Some(w[0])
            &&& writes_device(w) ==> r == Some(
                seq!['d', 'd', ' ', 'o', 'f', '=', '/', 'd', 'e', 'v', '/', '.', '.', '.'],
            )
            &&& r is Some && !removes_everything(w) && !stops_the_machine(w) && !changes_run_level(
                w,
            ) && !makes_file_system(w) && !writes_device(w) ==> r == Some(
                seq!['f', 'o', 'r', 'k', 'b', 'o', 'm', 'b'],
            )
        }),
{
    let w = text::words_of(seg);
    text_laws::lemma_words_trimmed(seg);
    lemma_literals();
    if w.len() > 0 {
        lemma_removes_everything(w);
        lemma_writes_device(w);
        lemma_makes_file_system(w[0]);
        assert(shell::is_halt(w[0]) <==> stops_the_machine(w));
        assert(shell::is_init_halt(w) <==> changes_run_level(w));
    }
}

// ---------- commands ----------

/// The first of several reasons is that of the first denied segment.
proof fn lemma_reason_is_first(segs: Seq<Seq<char>>, k: int)
    requires
        0 <= k <= segs.len(),
        forall|j: int| 0 <= j < k ==> shell::segment_reason(#[trigger] segs[j]) is None,
        k < segs.len() ==> shell::segment_reason(segs[k]) is Some,
    ensures
        shell::first_reason(segs) == if k < segs.len() {
            shell::segment_reason(segs[k])
        } else {
            None
        },
    decreases segs.len(),
{
    if k > 0 {
        let t = segs.drop_first();
        assert(shell::segment_reason(segs[0]) is None);
        assert forall|j: int| 0 <= j < k - 1 implies shell::segment_reason(
            #[trigger] t[j],
        ) is None by {
            assert(t[j] == segs[j + 1]);
        }
        lemma_reason_is_first(t, k - 1);
    }
}

/// The first denied segment of a command, in order, gives the reason.
pub proof fn law_first_denied_segment_counts(cmd: Seq<char>, k: int)
    requires
        0 <= k < shell::segments_of(cmd).len(),
        forall|j: int|
            0 <= j < k ==> shell::segment_reason(#[trigger] shell::segments_of(cmd)[j]) is None,
        shell::segment_reason(shell::segments_of(cmd)[k]) is Some,
    ensures
        shell::denial(cmd) == shell::segment_reason(shell::segments_of(cmd)[k]),
{
    lemma_reason_is_first(shell::segments_of(cmd), k);
}

/// A command of which no segment is denied is denied exactly where it holds
/// `:()` and behind it, with blanks at will, the rest of a fork bomb.
pub proof fn law_no_denied_segment(cmd: Seq<char>)
    requires
        forall|j: int|
            0 <= j < shell::segments_of(cmd).len() ==> shell::segment_reason(
                #[trigger] shell::segments_of(cmd)[j],
            ) is None,
    ensures
        ({
            let bomb = exists|i: int|
                {
                    &&& 0 <= i < cmd.len() - 2
                    &&& #[trigger] cmd[i] == ':'
                    &&& cmd[i + 1] == '('
                    &&& cmd[i + 2] == ')'
                    &&& text::spells(
                        cmd.skip(i + 3),
                        seq!['{', ':', '|', ':', '&', '}', ';', ':'],
                    )
                };
            &&& bomb ==> shell::denial(cmd) == Some(seq!['f', 'o', 'r', 'k', 'b', 'o', 'm', 'b'])
            &&& !bomb ==> shell::denial(cmd) is None
        }),
{
    lemma_literals();
    lemma_reason_is_first(shell::segments_of(cmd), shell::segments_of(cmd).len() as int);
    let p = seq![':', '(', ')'];
    assert(p[0] == ':' && p[1] == '(' && p[2] == ')');
    if shell::is_forkbomb(cmd) {
        let i = choose|i: int| shell::forkbomb_at(cmd, i);
        let f = cmd.subrange(i, i + 3);
        assert(f[0] == cmd[i] && f[1] == cmd[i + 1] && f[2] == cmd[i + 2]);
        assert(cmd[i] == ':');
    }
    if exists|i: int|
        {
            &&& 0 <= i < cmd.len() - 2
            &&& #[trigger] cmd[i] == ':'
            &&& cmd[i + 1] == '('
            &&& cmd[i + 2] == ')'
            &&& text::spells(cmd.skip(i + 3), seq!['{', ':', '|', ':', '&', '}', ';', ':'])
        } {
        let i = choose|i: int|
            {
                &&& 0 <= i < cmd.len() - 2
                &&& #[trigger] cmd[i] == ':'
                &&& cmd[i + 1] == '('
                &&& cmd[i + 2] == ')'
                &&& text::spells(cmd.skip(i + 3), seq!['{', ':', '|', ':', '&', '}', ';', ':'])
            };
        assert(cmd.subrange(i, i + 3) =~= p);
        assert(shell::forkbomb_at(cmd, i));
    }
}

/// A command of one segment that holds no fork bomb is denied exactly for the
/// words of that segment.
pub proof fn law_single_segment_is_denied_exactly(cmd: Seq<char>, seg: Seq<char>)
    requires
        shell::segments_of(cmd) == seq![seg],
        !text::has(
            text::trimmed(seg),
            seq![':', '(', ')', '{', ' ', ':', '|', ':', '&', ' ', '}', ';', ':'],
        ),
        forall|i: int|
            0 <= i < cmd.len() - 2 && #[trigger] cmd[i] == ':' && cmd[i + 1] == '(' && cmd[i + 2]
                == ')' ==> !text::spells(
                cmd.skip(i + 3),
                seq!['{', ':', '|', ':', '&', '}', ';', ':'],
            ),
    ensures
        ({
            let w = text::words_of(seg);
            shell::denial(cmd) is Some <==> {
                ||| removes_everything(w)
                ||| stops_the_machine(w)
                ||| changes_run_level(w)
                ||| makes_file_system(w)
                ||| writes_device(w)
            }
        }),
{
    law_segment_is_denied_exactly(seg);
    assert(shell::segments_of(cmd)[0] == seg);
    if shell::segment_reason(seg) is Some {
        law_first_denied_segment_counts(cmd, 0);
    } else {
        law_no_denied_segment(cmd);
    }
}

/// `c` neither quotes nor separates.
pub open spec fn is_ordinary(c: char) -> bool {
    c != '"' && c != '\'' && c != ';' && c != '|' && c != '&' && c != '\n'
}

/// Ordinary text in front of a command stands in front of its first segment.
pub proof fn law_ordinary_text_is_not_split(a: Seq<char>, b: Seq<char>)
    requires
        forall|i: int| 0 <= i < a.len() ==> is_ordinary(#[trigger] a[i]),
    ensures
        ({
            let whole = shell::segments_of(a + b);
            let segs = shell::segments_of(b);
            &&& segs.len() > 0
            &&& whole.len() == segs.len()
            &&& whole[0] == a + segs[0]
            &&& forall|k: int| 1 <= k < segs.len() ==> #[trigger] whole[k] == segs[k]
        }),
    decreases a.len(),
{
    shell::lemma_some_segment(b, None);
    if a.len() == 0 {
        assert(a + b =~= b);
        assert(a + shell::segments_of(b)[0] =~= shell::segments_of(b)[0]);
    } else {
        let t = a.drop_first();
        assert(is_ordinary(a[0]));
        assert forall|i: int| 0 <= i < t.len() implies is_ordinary(#[trigger] t[i]) by {
            assert(t[i] == a[i + 1]);
        }
        law_ordinary_text_is_not_split(t, b);
        assert((a + b).drop_first() =~= t + b);
        assert((a + b)[0] == a[0]);
        let inner = shell::segments_of(t + b);
        assert(shell::segments_of(a + b) == shell::headed(seq![a[0]], inner));
        assert(seq![a[0]] + (t + shell::segments_of(b)[0]) =~= a + shell::segments_of(b)[0]);
    }
}

/// Nothing is one empty segment; a quotation at the front is part of the first
/// segment, whatever it holds, and so is all that stands behind a quotation
/// mark that does not come again; a single `&` at the front is left out.
pub proof fn law_front_of_a_command(q: char, inner: Seq<char>, b: Seq<char>)
    requires
        q == '"' || q == '\'',
        !inner.contains(q),
    ensures
        shell::segments_of(Seq::empty()) == seq![Seq::<char>::empty()],
        shell::segments_of(seq![q] + inner) == seq![seq![q] + inner],
        ({
            let whole = shell::segments_of(seq![q] + inner + seq![q] + b);
            let segs = shell::segments_of(b);
            &&& whole.len() == segs.len()
            &&& whole[0] == seq![q] + inner + seq![q] + segs[0]
            &&& forall|k: int| 1 <= k < segs.len() ==> #[trigger] whole[k] == segs[k]
        }),
        b.len() == 0 || b[0] != '&' ==> shell::segments_of(seq!['&'] + b) == shell::segments_of(b),
{
    let open = seq![q] + inner;
    let whole = seq![q] + inner + seq![q] + b;
    let segs = shell::segments_of(b);
    shell::lemma_some_segment(b, None);
    lemma_open_quotation(inner, q);
    assert(open.drop_first() =~= inner);
    assert(shell::headed(seq![q], seq![inner]) =~= seq![seq![q] + inner]);
    lemma_quotation_in_front(inner, q, b);
    assert(whole.drop_first() =~= inner + seq![q] + b);
    let x = shell::segments_in(inner + seq![q] + b, Some(q));
    assert(shell::segments_of(whole) == shell::headed(seq![q], x));
    assert(seq![q] + (inner + seq![q] + segs[0]) =~= seq![q] + inner + seq![q] + segs[0]);
    let amp = seq!['&'] + b;
    assert(amp.drop_first() =~= b);
    if b.len() > 0 {
        assert(amp[1] == b[0]);
    }
}

/// Inside a quotation that does not end nothing separates.
proof fn lemma_open_quotation(inner: Seq<char>, q: char)
    requires
        !inner.contains(q),
    ensures
        shell::segments_in(inner, Some(q)) == seq![inner],
    decreases inner.len(),
{
    if inner.len() == 0 {
        assert(inner =~= Seq::<char>::empty());
    } else {
        let t = inner.drop_first();
        assert(inner.contains(inner[0]));
        assert forall|i: int| 0 <= i < t.len() implies #[trigger] t[i] != q by {
            assert(inner.contains(inner[i + 1]));
        }
        lemma_open_quotation(t, q);
        assert(seq![inner[0]] + t =~= inner);
        assert(shell::headed(seq![inner[0]], seq![t]) =~= seq![inner]);
    }
}

/// A quotation up to its end stands in front of the first segment.
proof fn lemma_quotation_in_front(inner: Seq<char>, q: char, b: Seq<char>)
    requires
        !inner.contains(q),
    ensures
        shell::segments_in(inner + seq![q] + b, Some(q)) == shell::headed(
            inner + seq![q],
            shell::segments_in(b, None),
        ),
    decreases inner.len(),
{
    let s = inner + seq![q] + b;
    let x = shell::segments_in(b, None);
    shell::lemma_some_segment(b, None);
    if inner.len() == 0 {
        assert(s.drop_first() =~= b);
        assert(inner + seq![q] =~= seq![q]);
    } else {
        let t = inner.drop_first();
        assert(inner.contains(inner[0]));
        assert forall|i: int| 0 <= i < t.len() implies #[trigger] t[i] != q by {
            assert(inner.contains(inner[i + 1]));
        }
        lemma_quotation_in_front(t, q, b);
        assert(s.drop_first() =~= t + seq![q] + b);
        assert(seq![inner[0]] + (t + seq![q] + x[0]) =~= inner + seq![q] + x[0]);
        assert(shell::headed(seq![inner[0]], shell::headed(t + seq![q], x)) =~= shell::headed(
            inner + seq![q],
            x,
        ));
    }
}

/// A command without quotation marks and operators is denied exactly for its
/// words: where they remove everything, stop the machine, change the run level
/// so, make a file system or write on a device.
pub proof fn law_ordinary_command_is_denied_exactly(cmd: Seq<char>)
    requires
        forall|i: int| 0 <= i < cmd.len() ==> is_ordinary(#[trigger] cmd[i]),
    ensures
        ({
            let w = text::words_of(cmd);
            &&& shell::segments_of(cmd) == seq![cmd]
            &&& shell::denial(cmd) == shell::segment_reason(cmd)
            &&& shell::denial(cmd) is Some <==> {
                ||| removes_everything(w)
                ||| stops_the_machine(w)
                ||| changes_run_level(w)
                ||| makes_file_system(w)
                ||| writes_device(w)
            }
        }),
{
    let none = Seq::<char>::empty();
    law_ordinary_text_is_not_split(cmd, none);
    assert(cmd + none =~= cmd);
    assert(shell::segments_of(none) =~= seq![none]);
    assert(shell::segments_of(cmd) =~= seq![cmd]);
    law_segment_is_denied_exactly(cmd);
    let bomb = seq![':', '(', ')', '{', ' ', ':', '|', ':', '&', ' ', '}', ';', ':'];
    let t = text::trimmed(cmd);
    if text::has(t, bomb) {
        let i = choose|i: int| text::occurs_at(t, bomb, i);
        assert(t.subrange(i, i + bomb.len())[6] == bomb[6]);
        assert(t[i + 6] == '|');
        lemma_trimmed_part(cmd, i + 6);
    }
    if shell::segment_reason(cmd) is Some {
        assert(shell::segments_of(cmd)[0] == cmd);
        law_first_denied_segment_counts(cmd, 0);
    } else {
        assert forall|j: int| 0 <= j < shell::segments_of(cmd).len() implies shell::segment_reason(
            #[trigger] shell::segments_of(cmd)[j],
        ) is None by {
            assert(shell::segments_of(cmd)[j] == cmd);
        }
        law_no_denied_segment(cmd);
        assert forall|i: int|
            {
                &&& 0 <= i < cmd.len() - 2
                &&& #[trigger] cmd[i] == ':'
                &&& cmd[i + 1] == '('
                &&& cmd[i + 2] == ')'
            } implies !text::spells(
            cmd.skip(i + 3),
            seq!['{', ':', '|', ':', '&', '}', ';', ':'],
        ) by {
            let pat = seq!['{', ':', '|', ':', '&', '}', ';', ':'];
            assert(pat[2] == '|');
            lemma_spelled_holds(cmd.skip(i + 3), pat, 2);
        }
    }
}

/// What is trimmed is part of the text.
proof fn lemma_trimmed_part(s: Seq<char>, i: int)
    requires
        0 <= i < text::trimmed(s).len(),
    ensures
        exists|j: int| 0 <= j < s.len() && #[trigger] s[j] == text::trimmed(s)[i],
    decreases s.len(),
{
    if s.len() > 0 && text::is_space(s[0]) {
        let t = s.drop_first();
        lemma_trimmed_part(t, i);
        let j = choose|j: int| 0 <= j < t.len() && #[trigger] t[j] == text::trimmed(t)[i];
        assert(s[j + 1] == t[j]);
    } else {
        lemma_trimmed_end_part(s, i);
    }
}

/// What is trimmed at the end is the front of the text.
proof fn lemma_trimmed_end_part(s: Seq<char>, i: int)
    requires
        0 <= i < text::trimmed_end(s).len(),
    ensures
        i < s.len(),
        s[i] == text::trimmed_end(s)[i],
    decreases s.len(),
{
    if s.len() > 0 && text::is_space(s.last()) {
        lemma_trimmed_end_part(s.drop_last(), i);
    }
}

/// A text that spells a pattern holds each of its characters.
proof fn lemma_spelled_holds(s: Seq<char>, pat: Seq<char>, k: int)
    requires
        0 <= k < pat.len(),
        !exists|j: int| 0 <= j < s.len() && #[trigger] s[j] == pat[k],
    ensures
        !text::spells(s, pat),
    decreases s.len(),
{
    if s.len() > 0 {
        let t = s.drop_first();
        if exists|j: int| 0 <= j < t.len() && #[trigger] t[j] == pat[k] {
            let j = choose|j: int| 0 <= j < t.len() && #[trigger] t[j] == pat[k];
            assert(s[j + 1] == pat[k]);
        }
        if s[0] == pat[0] {
            assert(k > 0) by {
                if k == 0 {
                    assert(s[0] == pat[k]);
                }
            }
            let p = pat.drop_first();
            assert(p[k - 1] == pat[k]);
            lemma_spelled_holds(t, p, k - 1);
        } else {
            lemma_spelled_holds(t, pat, k);
        }
    }
}

// ---------- quotations ----------

/// A quotation begins with either mark and ends with the same mark; inside it
/// the other mark is a character like any other.
pub proof fn law_quotations(s: Seq<char>, i: int)
    requires
        0 <= i < s.len(),
    ensures
        shell::quote_before(s, 0) is None,
        shell::quote_before(s, i) is None && (s[i] == '"' || s[i] == '\'')
            ==> shell::quote_before(s, i + 1) == Some(s[i]),
        shell::quote_before(s, i) is None && s[i] != '"' && s[i] != '\''
            ==> shell::quote_before(s, i + 1) is None,
        shell::quote_before(s, i) matches Some(q) ==> shell::quote_before(s, i + 1) == if s[i]
            == q {
            None
        } else {
            Some(q)
        },
{
}

/// What is looked for outside quotations is found at the first place where it
/// stands and no quotation is open.
pub proof fn law_first_place_outside_quotations(s: Seq<char>, pat: Seq<char>)
    requires
        pat.len() > 0,
        pat[0] != '"',
        pat[0] != '\'',
    ensures
        match shell::top_level_from(s, pat, 0) {
            Some(i) => {
                &&& 0 <= i <= s.len() - pat.len()
                &&& shell::quote_before(s, i) is None
                &&& forall|k: int| 0 <= k < pat.len() ==> s[i + k] == #[trigger] pat[k]
                &&& forall|j: int|
                    0 <= j < i && #[trigger] shell::quote_before(s, j) is None ==> s.subrange(
                        j,
                        j + pat.len(),
                    ) != pat
            },
            None => forall|j: int|
                0 <= j <= s.len() - pat.len() && #[trigger] shell::quote_before(s, j) is None
                    ==> s.subrange(j, j + pat.len()) != pat,
        },
{
    shell::lemma_top_level_from(s, pat, 0);
    match shell::top_level_from(s, pat, 0) {
        Some(i) => {
            let w = s.subrange(i, i + pat.len());
            assert(shell::top_level_at(s, pat, i));
            assert forall|k: int| 0 <= k < pat.len() implies s[i + k] == #[trigger] pat[k] by {
                assert(w[k] == s[i + k]);
            }
            assert forall|j: int|
                0 <= j < i && #[trigger] shell::quote_before(s, j) is None implies s.subrange(
                j,
                j + pat.len(),
            ) != pat by {
                if s.subrange(j, j + pat.len()) == pat {
                    assert(j + pat.len() <= s.len());
                    assert(s.subrange(j, j + pat.len())[0] == s[j]);
                    assert(shell::top_level_at(s, pat, j));
                }
            }
        },
        None => {
            assert forall|j: int|
                0 <= j <= s.len() - pat.len() && #[trigger] shell::quote_before(
                    s,
                    j,
                ) is None implies s.subrange(j, j + pat.len()) != pat by {
                if s.subrange(j, j + pat.len()) == pat {
                    assert(s.subrange(j, j + pat.len())[0] == s[j]);
                    assert(shell::top_level_at(s, pat, j));
                }
            }
        },
    }
}

// ---------- `cd` prefixes and kinds ----------

/// `cd`, a directory and `&&` are a prefix, with or without blanks around the
/// directory and in front of the whole.
pub proof fn law_prefix_is_taken(
    l: Seq<char>,
    x: Seq<char>,
    dir: Seq<char>,
    y: Seq<char>,
    rest: Seq<char>,
)
    requires
        forall|i: int| 0 <= i < l.len() ==> text::is_space(#[trigger] l[i]),
        forall|i: int| 0 <= i < x.len() ==> text::is_space(#[trigger] x[i]),
        forall|i: int| 0 <= i < y.len() ==> text::is_space(#[trigger] y[i]),
        dir.len() > 0,
        !text::is_space(dir[0]),
        !text::is_space(dir.last()),
        forall|i: int| 0 <= i < dir.len() ==> #[trigger] dir[i] != '"' && dir[i] != '\'' && dir[i]
            != '&' && dir[i] != ';' && dir[i] != '|' && dir[i] != '`',
    ensures
        shell::cd_split(l + seq!['c', 'd', ' '] + (x + dir + y) + seq!['&', '&'] + rest) == (
            Some(dir),
            text::trimmed_start(rest),
        ),
{
    reveal_strlit("cd ");
    reveal_strlit("&&");
    assert("cd "@ =~= seq!['c', 'd', ' ']);
    assert("&&"@ =~= seq!['&', '&']);
    let written = x + dir + y;
    let t = seq!['c', 'd', ' '] + written + seq!['&', '&'] + rest;
    let cmd = l + seq!['c', 'd', ' '] + written + seq!['&', '&'] + rest;
    assert(cmd =~= l + t);
    assert(t[0] == 'c');
    text_laws::law_trimmed_start(l, t);
    let behind = written + seq!['&', '&'] + rest;
    let n = written.len() as int;
    assert(t.subrange(0, 3) =~= "cd "@);
    assert(t.skip(3) =~= behind);
    assert forall|j: int| 0 <= j < n implies is_ordinary_directory(#[trigger] written[j]) by {
        if j < x.len() {
            assert(written[j] == x[j]);
        } else if j < x.len() + dir.len() {
            assert(written[j] == dir[j - x.len()]);
        } else {
            assert(written[j] == y[j - x.len() - dir.len()]);
        }
    }
    assert forall|j: int| 0 <= j < n implies !shell::is_quote(#[trigger] behind[j]) by {
        assert(behind[j] == written[j]);
    }
    shell_laws::lemma_before_quotes(behind, n);
    assert(behind.subrange(n, n + 2) =~= "&&"@);
    assert(shell::top_level_at(behind, "&&"@, n));
    assert forall|j: int| 0 <= j < n implies !#[trigger] shell::top_level_at(behind, "&&"@, j) by {
        if shell::top_level_at(behind, "&&"@, j) {
            assert(behind.subrange(j, j + 2)[0] == behind[j]);
            assert("&&"@[0] == '&');
            assert(behind[j] == written[j]);
        }
    }
    shell_laws::lemma_first_place(behind, "&&"@, n);
    assert(behind.take(n) =~= written);
    text_laws::law_trimmed(x, dir, y);
    assert(behind.skip(n + 2) =~= rest);
    shell_laws::lemma_stripped(dir, '"');
    shell_laws::lemma_stripped(dir, '\'');
    assert forall|j: int| 0 <= j < dir.len() implies #[trigger] dir[j] != ';' && dir[j] != '|'
        && dir[j] != '`' by {
    }
}

/// A directory is taken without the blanks around it, then without double and
/// then without single quotation marks at its ends.
pub proof fn law_directory_without_quotation_marks(
    x: Seq<char>,
    a: Seq<char>,
    b: Seq<char>,
    dir: Seq<char>,
    c: Seq<char>,
    d: Seq<char>,
    y: Seq<char>,
)
    requires
        forall|i: int| 0 <= i < x.len() ==> text::is_space(#[trigger] x[i]),
        forall|i: int| 0 <= i < y.len() ==> text::is_space(#[trigger] y[i]),
        forall|i: int| 0 <= i < a.len() ==> #[trigger] a[i] == '"',
        forall|i: int| 0 <= i < d.len() ==> #[trigger] d[i] == '"',
        forall|i: int| 0 <= i < b.len() ==> #[trigger] b[i] == '\'',
        forall|i: int| 0 <= i < c.len() ==> #[trigger] c[i] == '\'',
        dir.len() > 0,
        !text::is_space(dir[0]),
        !text::is_space(dir.last()),
        dir[0] != '"' && dir[0] != '\'',
        dir.last() != '"' && dir.last() != '\'',
    ensures
        shell::cd_directory(x + (a + (b + dir + c) + d) + y) == dir,
{
    let inner = b + dir + c;
    let outer = a + inner + d;
    assert(inner[0] == if b.len() > 0 {
        b[0]
    } else {
        dir[0]
    });
    assert(inner.last() == if c.len() > 0 {
        c[c.len() - 1]
    } else {
        dir.last()
    });
    assert(outer[0] == if a.len() > 0 {
        a[0]
    } else {
        inner[0]
    });
    assert(outer.last() == if d.len() > 0 {
        d[d.len() - 1]
    } else {
        inner.last()
    });
    text_laws::law_trimmed(x, outer, y);
    text_laws::law_stripped(a, inner, d, '"');
    text_laws::law_stripped(b, dir, c, '\'');
}

/// `c` is white space, or may stand in a directory that is written without
/// quotation marks.
spec fn is_ordinary_directory(c: char) -> bool {
    c != '"' && c != '\'' && c != '&' && c != ';' && c != '|' && c != '`'
}

/// Where no `cd` with a blank begins a command, or no `&&` stands in it, it is
/// left as it is.
pub proof fn law_no_prefix_is_taken(cmd: Seq<char>)
    requires
        ({
            let t = text::trimmed_start(cmd);
            ||| t.len() < 3
            ||| t[0] != 'c'
            ||| t[1] != 'd'
            ||| t[2] != ' '
            ||| !text::has(t, seq!['&', '&'])
        }),
    ensures
        shell::cd_split(cmd) == (None::<Seq<char>>, cmd),
{
    reveal_strlit("cd ");
    reveal_strlit("&&");
    let t = text::trimmed_start(cmd);
    if text::begins(t, "cd "@) {
        let f = t.subrange(0, 3);
        assert(f[0] == t[0] && f[1] == t[1] && f[2] == t[2]);
        let rest = t.skip(3);
        assert("&&"@ =~= seq!['&', '&']);
        shell::lemma_top_level_from(rest, "&&"@, 0);
        if shell::top_level_from(rest, "&&"@, 0) is Some {
            let p = shell::top_level_from(rest, "&&"@, 0)->0;
            assert(t.subrange(p + 3, p + 5) =~= rest.subrange(p, p + 2));
            assert(text::occurs_at(t, seq!['&', '&'], p + 3));
        }
    }
}

/// A directory in front of `&&` that is blank, or that holds a semicolon, a
/// bar or a back-quote, is not taken.
pub proof fn law_odd_directory_is_not_taken(dir: Seq<char>, rest: Seq<char>)
    requires
        forall|i: int| 0 <= i < dir.len() ==> #[trigger] dir[i] != '"' && dir[i] != '\'' && dir[i]
            != '&',
        (forall|i: int| 0 <= i < dir.len() ==> text::is_space(#[trigger] dir[i])) || dir.contains(
            ';',
        ) || dir.contains('|') || dir.contains('`'),
    ensures
        shell::cd_split(seq!['c', 'd', ' '] + dir + seq!['&', '&'] + rest) == (
            None::<Seq<char>>,
            seq!['c', 'd', ' '] + dir + seq!['&', '&'] + rest,
        ),
{
    reveal_strlit("cd ");
    reveal_strlit("&&");
    assert("cd "@ =~= seq!['c', 'd', ' ']);
    assert("&&"@ =~= seq!['&', '&']);
    let cmd = seq!['c', 'd', ' '] + dir + seq!['&', '&'] + rest;
    let behind = dir + seq!['&', '&'] + rest;
    let n = dir.len() as int;
    assert(cmd[0] == 'c');
    assert(text::trimmed_start(cmd) == cmd);
    assert(cmd.skip(3) =~= behind);
    assert forall|j: int| 0 <= j < n implies !shell::is_quote(#[trigger] behind[j]) by {
        assert(behind[j] == dir[j]);
    }
    shell_laws::lemma_before_quotes(behind, n);
    assert(behind.subrange(n, n + 2) =~= "&&"@);
    assert(shell::top_level_at(behind, "&&"@, n));
    assert forall|j: int| 0 <= j < n implies !#[trigger] shell::top_level_at(behind, "&&"@, j) by {
        if shell::top_level_at(behind, "&&"@, j) {
            assert(behind.subrange(j, j + 2)[0] == behind[j]);
            assert("&&"@[0] == '&');
            assert(behind[j] == dir[j]);
        }
    }
    shell_laws::lemma_first_place(behind, "&&"@, n);
    assert(behind.take(n) =~= dir);
    let d = text::trimmed(dir);
    text_laws::law_blank_text(dir);
    if d.len() > 0 && shell::is_plain_directory(dir) {
        let c = if dir.contains(';') {
            ';'
        } else if dir.contains('|') {
            '|'
        } else {
            '`'
        };
        lemma_trimmed_keeps(dir, c);
    }
}

/// What is no white space is not trimmed away.
proof fn lemma_trimmed_keeps(s: Seq<char>, c: char)
    requires
        s.contains(c),
        !text::is_space(c),
    ensures
        text::trimmed(s).contains(c),
    decreases s.len(),
{
    let i = choose|i: int| 0 <= i < s.len() && s[i] == c;
    if text::is_space(s[0]) {
        let t = s.drop_first();
        assert(t[i - 1] == c);
        lemma_trimmed_keeps(t, c);
    } else {
        lemma_trimmed_end_keeps(s, c);
    }
}

/// What is no white space is not trimmed away at the end.
proof fn lemma_trimmed_end_keeps(s: Seq<char>, c: char)
    requires
        s.contains(c),
        !text::is_space(c),
    ensures
        text::trimmed_end(s).contains(c),
    decreases s.len(),
{
    let i = choose|i: int| 0 <= i < s.len() && s[i] == c;
    if text::is_space(s.last()) {
        let t = s.drop_last();
        assert(t[i] == c);
        lemma_trimmed_end_keeps(t, c);
    }
}

/// A command whose first word is `git` or `gh`, and no other, is of that kind;
/// every other command is one of the shell.
pub proof fn law_kind_is_the_first_word(l: Seq<char>, w: Seq<char>, b: Seq<char>)
    requires
        forall|i: int| 0 <= i < l.len() ==> text::is_space(#[trigger] l[i]),
        forall|i: int| 0 <= i < w.len() ==> !text::is_space(#[trigger] w[i]),
        w.len() > 0,
        b.len() > 0 ==> text::is_space(b[0]),
        w != seq!['c', 'd'],
    ensures
        shell::kind_of(l + w + b) == if w == seq!['g', 'i', 't'] {
            seq!['g', 'i', 't']
        } else if w == seq!['g', 'h'] {
            seq!['g', 'h']
        } else {
            seq!['s', 'h', 'e', 'l', 'l']
        },
{
    reveal_strlit("git");
    reveal_strlit("gh");
    reveal_strlit("shell");
    assert("git"@ =~= seq!['g', 'i', 't']);
    assert("gh"@ =~= seq!['g', 'h']);
    assert("shell"@ =~= seq!['s', 'h', 'e', 'l', 'l']);
    let cmd = l + w + b;
    let t = w + b;
    assert(cmd =~= l + t);
    assert(t[0] == w[0]);
    text_laws::law_trimmed_start(l, t);
    assert(text::trimmed_start(t) == t);
    if t.len() >= 3 && t[0] == 'c' && t[1] == 'd' && t[2] == ' ' {
        assert(w.len() == 2) by {
            if w.len() == 1 {
                assert(t[1] == b[0]);
            }
            if w.len() > 2 {
                assert(w[2] == t[2]);
                assert(text::is_space(' '));
            }
        }
        assert(w =~= seq!['c', 'd']);
    }
    law_no_prefix_is_taken(t);
    let none = Seq::<char>::empty();
    text_laws::law_first_word(none, w, b);
    assert(none + w + b =~= t);
}

/// A change of directory alone is one of the shell.
pub proof fn law_kind_of_a_change_of_directory(l: Seq<char>, b: Seq<char>)
    requires
        forall|i: int| 0 <= i < l.len() ==> text::is_space(#[trigger] l[i]),
        b.len() > 0 ==> text::is_space(b[0]),
        forall|i: int| 0 <= i < b.len() ==> #[trigger] b[i] != '&',
    ensures
        shell::kind_of(l + seq!['c', 'd'] + b) == seq!['s', 'h', 'e', 'l', 'l'],
{
    reveal_strlit("git");
    reveal_strlit("gh");
    reveal_strlit("shell");
    assert("git"@ =~= seq!['g', 'i', 't']);
    assert("gh"@ =~= seq!['g', 'h']);
    assert("shell"@ =~= seq!['s', 'h', 'e', 'l', 'l']);
    let w = seq!['c', 'd'];
    let t = w + b;
    assert(l + w + b =~= l + t);
    assert(t[0] == 'c');
    text_laws::law_trimmed_start(l, t);
    assert(text::trimmed_start(t) == t);
    if text::has(t, seq!['&', '&']) {
        let i = choose|i: int| text::occurs_at(t, seq!['&', '&'], i);
        assert(t.subrange(i, i + 2)[0] == t[i]);
        assert(seq!['&', '&'][0] == '&');
        if i >= 2 {
            assert(t[i] == b[i - 2]);
        }
    }
    law_no_prefix_is_taken(t);
    let none = Seq::<char>::empty();
    text_laws::law_first_word(none, w, b);
    assert(none + w + b =~= t);
    assert(w[0] == 'c');
}

/// Behind `cd DIR && ` a command is of the kind that its first word says.
pub proof fn law_kind_behind_a_prefix(
    dir: Seq<char>,
    l: Seq<char>,
    w: Seq<char>,
    b: Seq<char>,
)
    requires
        dir.len() > 0,
        !text::is_space(dir[0]),
        !text::is_space(dir.last()),
        forall|i: int| 0 <= i < dir.len() ==> #[trigger] dir[i] != '"' && dir[i] != '\'' && dir[i]
            != '&' && dir[i] != ';' && dir[i] != '|' && dir[i] != '`',
        forall|i: int| 0 <= i < l.len() ==> text::is_space(#[trigger] l[i]),
        forall|i: int| 0 <= i < w.len() ==> !text::is_space(#[trigger] w[i]),
        w.len() > 0,
        b.len() > 0 ==> text::is_space(b[0]),
    ensures
        shell::kind_of("cd "@ + dir + " && "@ + (l + w + b)) == if w == seq!['g', 'i', 't'] {
            seq!['g', 'i', 't']
        } else if w == seq!['g', 'h'] {
            seq!['g', 'h']
        } else {
            seq!['s', 'h', 'e', 'l', 'l']
        },
{
    reveal_strlit("git");
    reveal_strlit("gh");
    reveal_strlit("shell");
    reveal_strlit("cd ");
    assert("git"@ =~= seq!['g', 'i', 't']);
    assert("gh"@ =~= seq!['g', 'h']);
    assert("shell"@ =~= seq!['s', 'h', 'e', 'l', 'l']);
    reveal_strlit("&&");
    let rest = l + w + b;
    let cmd = "cd "@ + dir + " && "@ + rest;
    assert(cmd[0] == 'c');
    assert(text::trimmed_start(cmd) == cmd);
    if text::has(dir, "&&"@) {
        let i = choose|i: int| text::occurs_at(dir, "&&"@, i);
        assert(dir.subrange(i, i + 2)[0] == dir[i]);
        assert("&&"@[0] == '&');
    }
    shell_laws::law_cd_prefix(dir, rest);
    assert(rest =~= l + (w + b));
    assert((w + b)[0] == w[0]);
    text_laws::law_trimmed_start(l, w + b);
    let none = Seq::<char>::empty();
    text_laws::law_first_word(none, w, b);
    assert(none + w + b =~= w + b);
}

} // verus!
