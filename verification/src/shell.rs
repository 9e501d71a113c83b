//! Reading shell text: top-level segments, the safety denylist, `cd` prefixes
//! and the kind of a command.

use vstd::prelude::*;
use vstd::slice::slice_subrange;
use crate::text;

verus! {

// ---------- segments ----------

/// `c` opens a quotation.
pub open spec fn is_quote(c: char) -> bool {
    c == '"' || c == '\''
}

/// How long the operator is that separates two segments in front of `s`:
/// a line feed, `;`, `|`, `||` or `&&`. Zero where there is none.
pub open spec fn separator_len(s: Seq<char>) -> int {
    if s.len() == 0 {
        0
    } else if s[0] == '\n' || s[0] == ';' {
        1
    } else if s[0] == '|' {
        if s.len() > 1 && s[1] == '|' {
            2
        } else {
            1
        }
    } else if s[0] == '&' && s.len() > 1 && s[1] == '&' {
        2
    } else {
        0
    }
}

/// `head` put in front of the first of `segs`.
pub open spec fn headed(head: Seq<char>, segs: Seq<Seq<char>>) -> Seq<Seq<char>> {
    segs.update(0, head + segs[0])
}

/// The segments of `s`, which begins inside the quotation `quote` if there is
/// one. Separators inside quotations do not separate; a single `&` outside
/// them belongs to no segment.
pub open spec fn segments_in(s: Seq<char>, quote: Option<char>) -> Seq<Seq<char>>
    decreases s.len(),
{
    if s.len() == 0 {
        seq![Seq::empty()]
    } else if quote is Some {
        let next = if s[0] == quote->0 {
            None
        } else {
            quote
        };
        headed(seq![s[0]], segments_in(s.drop_first(), next))
    } else if is_quote(s[0]) {
        headed(seq![s[0]], segments_in(s.drop_first(), Some(s[0])))
    } else if separator_len(s) > 0 {
        seq![Seq::empty()] + segments_in(s.skip(separator_len(s)), None)
    } else if s[0] == '&' {
        segments_in(s.drop_first(), None)
    } else {
        headed(seq![s[0]], segments_in(s.drop_first(), None))
    }
}

/// The top-level segments of a command, read character by character: a letter
/// beyond ASCII is a letter, and never a blank or a part of another one.
pub open spec fn segments_of(cmd: Seq<char>) -> Seq<Seq<char>> {
    segments_in(cmd, None)
}

/// There is at least one segment.
pub proof fn lemma_some_segment(s: Seq<char>, quote: Option<char>)
    ensures
        segments_in(s, quote).len() > 0,
    decreases s.len(),
{
    if s.len() > 0 {
        if quote is Some {
            let next = if s[0] == quote->0 {
                None
            } else {
                quote
            };
            lemma_some_segment(s.drop_first(), next);
        } else if is_quote(s[0]) {
            lemma_some_segment(s.drop_first(), Some(s[0]));
        } else if separator_len(s) > 0 {
            lemma_some_segment(s.skip(separator_len(s)), None);
        } else {
            lemma_some_segment(s.drop_first(), None);
        }
    }
}

/// Growing the head by one character is putting that character behind it.
proof fn lemma_headed_push(head: Seq<char>, c: char, segs: Seq<Seq<char>>)
    requires
        segs.len() > 0,
    ensures
        headed(head, headed(seq![c], segs)) == headed(head.push(c), segs),
{
    assert(head + (seq![c] + segs[0]) == head.push(c) + segs[0]);
    assert(headed(head, headed(seq![c], segs)) =~= headed(head.push(c), segs));
}

/// Splits a command into its top-level segments: at `&&`, `||`, `;`, `|` and
/// line feeds that stand outside quotations.
pub fn segments(cmd: &str) -> (r: Vec<Vec<char>>)
    ensures
        text::rows(r@) == segments_of(cmd@),
{
    let b = text::chars_of(cmd);
    let ghost all = cmd@;
    let mut segs: Vec<Vec<char>> = Vec::new();
    let mut cur: Vec<char> = Vec::new();
    let mut quote: Option<char> = None;
    let mut i: usize = 0;
    proof {
        assert(all.skip(0) == all);
        lemma_some_segment(all, None);
        assert(text::rows(segs@) + headed(cur@, segments_in(all, None)) == segments_in(all, None));
    }
    while i < b.len()
        invariant
            i <= b@.len(),
            all == b@,
            text::rows(segs@) + headed(cur@, segments_in(all.skip(i as int), quote))
                == segments_in(all, None),
        decreases b@.len() - i,
    {
        let c = b[i];
        let ghost rest = all.skip(i as int);
        let ghost segs0 = segs@;
        let ghost cur0 = cur@;
        proof {
            assert(rest[0] == c);
            assert(rest.len() > 1 ==> rest[1] == all[i + 1]);
            assert(rest.drop_first() == all.skip(i + 1));
        }
        match quote {
            Some(q) => {
                cur.push(c);
                if c == q {
                    quote = None;
                }
                i += 1;
                proof {
                    let tail = segments_in(all.skip(i as int), quote);
                    lemma_some_segment(all.skip(i as int), quote);
                    lemma_headed_push(cur0, c, tail);
                }
            },
            None => {
                if c == '"' || c == '\'' {
                    quote = Some(c);
                    cur.push(c);
                    i += 1;
                    proof {
                        let tail = segments_in(all.skip(i as int), quote);
                        lemma_some_segment(all.skip(i as int), quote);
                        lemma_headed_push(cur0, c, tail);
                    }
                } else if c == '\n' || c == ';' || c == '|' || (c == '&' && i + 1 < b.len()
                    && b[i + 1] == '&') {
                    let step: usize = if c == '&' || (c == '|' && i + 1 < b.len() && b[i + 1]
                        == '|') {
                        2
                    } else {
                        1
                    };
                    proof {
                        assert(i + 1 < b@.len() ==> all[i + 1] == b@[i + 1]);
                        assert(separator_len(rest) == step);
                        assert(rest.skip(step as int) == all.skip(i + step));
                        let tail = segments_in(all.skip(i + step), None);
                        lemma_some_segment(all.skip(i + step), None);
                        assert(headed(cur0, seq![Seq::<char>::empty()] + tail) == seq![cur0] + tail);
                    }
                    segs.push(cur);
                    cur = Vec::new();
                    i += step;
                    proof {
                        let tail = segments_in(all.skip(i as int), None);
                        assert(headed(cur@, tail) == tail);
                        assert(text::rows(segs@) == text::rows(segs0).push(cur0));
                        assert(text::rows(segs@) + tail == text::rows(segs0) + (seq![cur0] + tail));
                    }
                } else if c == '&' {
                    assert(i + 1 < b@.len() ==> all[i + 1] == b@[i + 1]);
                    i += 1;
                } else {
                    cur.push(c);
                    i += 1;
                    proof {
                        let tail = segments_in(all.skip(i as int), None);
                        lemma_some_segment(all.skip(i as int), None);
                        lemma_headed_push(cur0, c, tail);
                    }
                }
            },
        }
    }
    let ghost segs0 = segs@;
    let ghost cur0 = cur@;
    segs.push(cur);
    proof {
        assert(all.skip(i as int) == Seq::<char>::empty());
        assert(headed(cur0, seq![Seq::<char>::empty()]) == seq![cur0]);
        assert(text::rows(segs@) == text::rows(segs0).push(cur0));
        assert(text::rows(segs@) == text::rows(segs0) + seq![cur0]);
    }
    segs
}

// ---------- the safety denylist ----------

/// `a` is an option that makes `rm` descend: a group of short options with
/// `r` or `R` in it, or `--recursive`.
pub open spec fn is_recursive_option(a: Seq<char>) -> bool {
    ||| {
        &&& text::begins(a, "-"@)
        &&& !text::begins(a, "--"@)
        &&& exists|i: int| 1 <= i < a.len() && (#[trigger] a[i] == 'r' || a[i] == 'R')
    }
    ||| a == "--recursive"@
}

/// `a` names everything below the root directory.
pub open spec fn is_root_target(a: Seq<char>) -> bool {
    a == "/"@ || a == "/*"@
}

/// `a` makes `dd` write to a device.
pub open spec fn is_device_output(a: Seq<char>) -> bool {
    text::begins(a, "of=/dev/"@)
}

/// The words of `rm` remove everything below the root directory.
pub open spec fn removes_root(w: Seq<Seq<char>>) -> bool {
    &&& w[0] == "rm"@
    &&& exists|i: int| 1 <= i < w.len() && is_recursive_option(#[trigger] w[i])
    &&& exists|i: int| 1 <= i < w.len() && is_root_target(#[trigger] w[i])
}

/// `a` is a command that stops the machine.
pub open spec fn is_halt(a: Seq<char>) -> bool {
    a == "shutdown"@ || a == "reboot"@ || a == "halt"@ || a == "poweroff"@
}

/// The words of `init` stop or restart the machine.
pub open spec fn is_init_halt(w: Seq<Seq<char>>) -> bool {
    &&& w[0] == "init"@
    &&& w.len() > 1
    &&& (w[1] == "0"@ || w[1] == "6"@)
}

/// The words of `dd` overwrite a device.
pub open spec fn overwrites_device(w: Seq<Seq<char>>) -> bool {
    &&& w[0] == "dd"@
    &&& exists|i: int| 0 <= i < w.len() && is_device_output(#[trigger] w[i])
}

/// Why one segment is denied, if it is.
pub open spec fn segment_reason(seg: Seq<char>) -> Option<Seq<char>> {
    let t = text::trimmed(seg);
    let w = text::words_of(t);
    if w.len() == 0 {
        None
    } else if removes_root(w) {
        Some("rm -rf /"@)
    } else if is_halt(w[0]) {
        Some(w[0])
    } else if is_init_halt(w) {
        Some("init "@ + w[1])
    } else if text::begins(w[0], "mkfs"@) {
        Some(w[0])
    } else if overwrites_device(w) {
        Some("dd of=/dev/..."@)
    } else if text::has(t, ":(){ :|:& };:"@) {
        Some("forkbomb"@)
    } else {
        None
    }
}

/// Why the first denied one of `segs` is denied, if one is.
pub open spec fn first_reason(segs: Seq<Seq<char>>) -> Option<Seq<char>>
    decreases segs.len(),
{
    if segs.len() == 0 {
        None
    } else if segment_reason(segs[0]) is Some {
        segment_reason(segs[0])
    } else {
        first_reason(segs.drop_first())
    }
}

/// The fork bomb stands in `cmd` at `i`, with any blanks and tabs behind its
/// `:()`.
pub open spec fn forkbomb_at(cmd: Seq<char>, i: int) -> bool {
    text::occurs_at(cmd, ":()"@, i) && text::spells(cmd.skip(i + 3), "{:|:&};:"@)
}

/// `cmd` holds the fork bomb.
pub open spec fn is_forkbomb(cmd: Seq<char>) -> bool {
    exists|i: int| forkbomb_at(cmd, i)
}

/// Why a command is denied, if it is: for one of its segments, or because it
/// is a fork bomb.
pub open spec fn denial(cmd: Seq<char>) -> Option<Seq<char>> {
    let r = first_reason(segments_of(cmd));
    if r is Some {
        r
    } else if is_forkbomb(cmd) {
        Some("forkbomb"@)
    } else {
        None
    }
}

/// Whether `a` is an option that makes `rm` descend.
fn recursive_option(a: &[char]) -> (r: bool)
    ensures
        r == is_recursive_option(a@),
{
    if text::is_text(a, "--recursive") {
        return true;
    }
    if !text::starts_with(a, "-") || text::starts_with(a, "--") {
        return false;
    }
    let mut i: usize = 1;
    while i < a.len()
        invariant
            1 <= i,
            text::begins(a@, "-"@),
            !text::begins(a@, "--"@),
            a@ != "--recursive"@,
            forall|j: int| 1 <= j < i && j < a@.len() ==> #[trigger] a@[j] != 'r' && a@[j] != 'R',
        decreases a@.len() - i,
    {
        if a[i] == 'r' || a[i] == 'R' {
            return true;
        }
        i += 1;
    }
    false
}

/// Why one segment is denied, if it is.
fn denied_segment(seg: &[char]) -> (r: Option<String>)
    ensures
        text::optional(r) == segment_reason(seg@),
{
    let t = text::trim(seg);
    let ws = text::words(t);
    let ghost w = text::words_of(t@);
    assert(w == text::rows(ws@));
    if ws.len() == 0 {
        return None;
    }
    let mut descends = false;
    let mut at_root = false;
    let mut to_device = false;
    let mut i: usize = 0;
    while i < ws.len()
        invariant
            i <= ws@.len(),
            w == text::rows(ws@),
            descends == exists|j: int| 1 <= j < i && is_recursive_option(#[trigger] w[j]),
            at_root == exists|j: int| 1 <= j < i && is_root_target(#[trigger] w[j]),
            to_device == exists|j: int| 0 <= j < i && is_device_output(#[trigger] w[j]),
        decreases ws@.len() - i,
    {
        let a = ws[i].as_slice();
        assert(w[i as int] == a@);
        if i > 0 {
            if recursive_option(a) {
                descends = true;
            }
            if text::is_text(a, "/") || text::is_text(a, "/*") {
                at_root = true;
            }
        }
        if text::starts_with(a, "of=/dev/") {
            to_device = true;
        }
        i += 1;
    }
    let head = ws[0].as_slice();
    assert(w[0] == head@);
    if text::is_text(head, "rm") && descends && at_root {
        return Some("rm -rf /".to_owned());
    }
    if text::is_text(head, "shutdown") || text::is_text(head, "reboot") || text::is_text(
        head,
        "halt",
    ) || text::is_text(head, "poweroff") {
        return Some(text::string_of(head));
    }
    if text::is_text(head, "init") && ws.len() > 1 {
        let level = ws[1].as_slice();
        assert(w[1] == level@);
        if text::is_text(level, "0") || text::is_text(level, "6") {
            let mut out = "init ".to_owned();
            text::push_all(&mut out, level);
            return Some(out);
        }
    }
    if text::starts_with(head, "mkfs") {
        return Some(text::string_of(head));
    }
    if text::is_text(head, "dd") && to_device {
        return Some("dd of=/dev/...".to_owned());
    }
    if text::contains_text(t, ":(){ :|:& };:") {
        return Some("forkbomb".to_owned());
    }
    None
}

/// Whether `cmd` holds the fork bomb.
fn holds_forkbomb(cmd: &[char]) -> (r: bool)
    ensures
        r == is_forkbomb(cmd@),
{
    proof {
        reveal_strlit(":()");
    }
    let name = text::chars_of(":()");
    let body = text::chars_of("{:|:&};:");
    let n: usize = cmd.len();
    let mut i: usize = 0;
    while i < n
        invariant
            i <= n,
            n == cmd@.len(),
            name@ == ":()"@,
            name@.len() == 3,
            body@ == "{:|:&};:"@,
            forall|j: int| 0 <= j < i ==> !forkbomb_at(cmd@, j),
        decreases n - i,
    {
        if text::found_at(cmd, name.as_slice(), i) && text::spells_from(
            cmd,
            i + 3,
            body.as_slice(),
        ) {
            assert(forkbomb_at(cmd@, i as int));
            return true;
        }
        i += 1;
    }
    false
}

/// Why a command is denied by the safety denylist, if it is.
pub fn dangerous_reason(cmd: &str) -> (r: Option<String>)
    ensures
        text::optional(r) == denial(cmd@),
{
    let segs = segments(cmd);
    let ghost all = segments_of(cmd@);
    let mut i: usize = 0;
    assert(all.skip(0) == all);
    while i < segs.len()
        invariant
            i <= segs@.len(),
            text::rows(segs@) == all,
            all == segments_of(cmd@),
            first_reason(all) == first_reason(all.skip(i as int)),
        decreases segs@.len() - i,
    {
        assert(all[i as int] == segs@[i as int]@);
        assert(all.skip(i as int).drop_first() == all.skip(i + 1));
        let r = denied_segment(segs[i].as_slice());
        if r.is_some() {
            return r;
        }
        i += 1;
    }
    assert(first_reason(all.skip(i as int)) is None);
    let cs = text::chars_of(cmd);
    if holds_forkbomb(cs.as_slice()) {
        Some("forkbomb".to_owned())
    } else {
        None
    }
}

// ---------- `cd` prefixes ----------

/// The quotation that `s` is inside of in front of position `i`, if any.
pub open spec fn quote_before(s: Seq<char>, i: int) -> Option<char>
    decreases i,
{
    if i <= 0 {
        None
    } else {
        let c = s[i - 1];
        match quote_before(s, i - 1) {
            Some(q) => if c == q {
                None
            } else {
                Some(q)
            },
            None => if is_quote(c) {
                Some(c)
            } else {
                None
            },
        }
    }
}

/// `pat` stands in `s` at `i`, outside quotations.
pub open spec fn top_level_at(s: Seq<char>, pat: Seq<char>, i: int) -> bool {
    &&& 0 <= i < s.len()
    &&& quote_before(s, i) is None
    &&& !is_quote(s[i])
    &&& text::occurs_at(s, pat, i)
}

/// The first place at or after `i` where `pat` stands outside quotations.
pub open spec fn top_level_from(s: Seq<char>, pat: Seq<char>, i: int) -> Option<int>
    decreases s.len() - i,
{
    if i >= s.len() {
        None
    } else if top_level_at(s, pat, i) {
        Some(i)
    } else {
        top_level_from(s, pat, i + 1)
    }
}

/// The first place where `needle` stands in `hay` outside quotations.
pub fn find_top_level(hay: &[char], needle: &[char]) -> (r: Option<usize>)
    ensures
        match r {
            Some(i) => top_level_from(hay@, needle@, 0) == Some(i as int),
            None => top_level_from(hay@, needle@, 0) is None,
        },
{
    let mut quote: Option<char> = None;
    let mut i: usize = 0;
    while i < hay.len()
        invariant
            i <= hay@.len(),
            quote == quote_before(hay@, i as int),
            top_level_from(hay@, needle@, 0) == top_level_from(hay@, needle@, i as int),
        decreases hay@.len() - i,
    {
        let c = hay[i];
        match quote {
            Some(q) => {
                if c == q {
                    quote = None;
                }
            },
            None => {
                if c == '"' || c == '\'' {
                    quote = Some(c);
                } else if text::found_at(hay, needle, i) {
                    return Some(i);
                }
            },
        }
        i += 1;
    }
    None
}

/// A directory as it is written between `cd` and `&&`, without the blanks
/// and then the quotation marks around it.
pub open spec fn cd_directory(written: Seq<char>) -> Seq<char> {
    text::stripped(text::stripped(text::trimmed(written), '"'), '\'')
}

/// What stands between `cd` and `&&` is one directory: it is not empty and
/// holds no `;`, `|` or backquote.
pub open spec fn is_plain_directory(written: Seq<char>) -> bool {
    let dir = text::trimmed(written);
    &&& dir.len() > 0
    &&& !dir.contains(';')
    &&& !dir.contains('|')
    &&& !dir.contains('`')
}

/// The directory and the remaining command, for a command that begins with
/// `cd`, one directory and `&&`; no directory and the whole command for any
/// other.
pub open spec fn cd_split(cmd: Seq<char>) -> (Option<Seq<char>>, Seq<char>) {
    let t = text::trimmed_start(cmd);
    let rest = t.skip(3);
    let pos = top_level_from(rest, "&&"@, 0);
    if text::begins(t, "cd "@) && pos is Some && is_plain_directory(rest.take(pos->0)) {
        (Some(cd_directory(rest.take(pos->0))), text::trimmed_start(rest.skip(pos->0 + 2)))
    } else {
        (None, cmd)
    }
}

/// A place that `top_level_from` gives holds the pattern.
pub proof fn lemma_top_level_from(s: Seq<char>, pat: Seq<char>, i: int)
    requires
        0 <= i,
    ensures
        match top_level_from(s, pat, i) {
            Some(p) => i <= p && top_level_at(s, pat, p) && forall|j: int|
                i <= j < p ==> !top_level_at(s, pat, j),
            None => forall|j: int| i <= j ==> !top_level_at(s, pat, j),
        },
    decreases s.len() - i,
{
    if i < s.len() && !top_level_at(s, pat, i) {
        lemma_top_level_from(s, pat, i + 1);
    }
}

/// Whether `c` stands in `s`.
fn holds(s: &[char], c: char) -> (r: bool)
    ensures
        r == s@.contains(c),
{
    let i = text::find_from(s, 0, c);
    proof {
        assert(s@.skip(0) == s@);
        text::lemma_find_char(s@, c);
    }
    i < s.len()
}

/// Splits `cd DIR && rest` into its directory and the rest. A command that
/// does not begin so comes back whole, without a directory.
pub fn strip_cd_prefix(cmd: &str) -> (r: (Option<String>, String))
    ensures
        (text::optional(r.0), r.1@) == cd_split(cmd@),
{
    let cs = text::chars_of(cmd);
    let t = text::trim_start(cs.as_slice());
    if text::starts_with(t, "cd ") {
        proof {
            reveal_strlit("cd ");
            reveal_strlit("&&");
        }
        let rest = slice_subrange(t, 3, t.len());
        assert(rest@ == t@.skip(3));
        let needle = text::chars_of("&&");
        if let Some(pos) = find_top_level(rest, needle.as_slice()) {
            proof {
                lemma_top_level_from(rest@, "&&"@, 0);
            }
            let written = slice_subrange(rest, 0, pos);
            assert(written@ == rest@.take(pos as int));
            let dir = text::trim(written);
            if dir.len() > 0 && !holds(dir, ';') && !holds(dir, '|') && !holds(dir, '`') {
                let plain = text::strip(text::strip(dir, '"'), '\'');
                let after = slice_subrange(rest, pos + 2, rest.len());
                assert(after@ == rest@.skip(pos + 2));
                return (
                    Some(text::string_of(plain)),
                    text::string_of(text::trim_start(after)),
                );
            }
        }
    }
    (None, cmd.to_owned())
}

// ---------- kinds ----------

/// The kind of a command by its first word, behind a `cd` prefix if it has
/// one: `git`, `gh` or `shell`.
pub open spec fn kind_of(cmd: Seq<char>) -> Seq<char> {
    let first = text::first_word_of(cd_split(text::trimmed_start(cmd)).1);
    if first == "git"@ {
        "git"@
    } else if first == "gh"@ {
        "gh"@
    } else {
        "shell"@
    }
}

/// The kind of a command: `git`, `gh` or `shell`.
pub fn classify(cmd: &str) -> (r: String)
    ensures
        r@ == kind_of(cmd@),
{
    let cs = text::chars_of(cmd);
    let t = text::string_of(text::trim_start(cs.as_slice()));
    let rest = strip_cd_prefix(t.as_str()).1;
    let rs = text::chars_of(rest.as_str());
    let first = text::first_word(rs.as_slice());
    if text::is_text(first.as_slice(), "git") {
        "git".to_owned()
    } else if text::is_text(first.as_slice(), "gh") {
        "gh".to_owned()
    } else {
        "shell".to_owned()
    }
}

} // verus!
