//! Files handed back with a batch: which ones a pattern names, and what is
//! said of each.

use vstd::prelude::*;
use vstd::utf8::decode_utf8;
use vstd::utf8::valid_utf8;
use crate::outside;
use crate::protocol::Artifact;
use crate::protocol::ArtifactModel;
use crate::protocol::CaptureSpec;
use crate::protocol::CaptureModel;
use crate::text;

verus! {

/// The size below which a text file is handed back whole, unless the request
/// gives another.
pub const DEFAULT_INLINE_BYTES: u64 = 65_536;

// ---------- patterns ----------

/// `c` stands for other characters in a pattern.
pub open spec fn is_wild(c: char) -> bool {
    c == '*' || c == '?'
}

/// The name `n` is one that the pattern `p` names: `*` stands for any
/// characters, `?` for any one character, and each other for itself.
pub open spec fn names(p: Seq<char>, n: Seq<char>) -> bool
    decreases p.len() + n.len(),
{
    if p.len() == 0 {
        n.len() == 0
    } else if p[0] == '*' {
        names(p.drop_first(), n) || (n.len() > 0 && names(p, n.drop_first()))
    } else {
        n.len() > 0 && (p[0] == '?' || p[0] == n[0]) && names(p.drop_first(), n.drop_first())
    }
}

/// `row[k]` says of each place of `n` whether `p` names what stands from
/// there on, and `end` whether it names nothing.
spec fn is_row(p: Seq<char>, n: Seq<char>, row: Seq<bool>, end: bool) -> bool {
    &&& row.len() == n.len()
    &&& forall|k: int| 0 <= k < n.len() ==> #[trigger] row[k] == names(p, n.skip(k))
    &&& end == names(p, Seq::empty())
}

/// What a row says of the place behind `k`.
spec fn at_next(row: Seq<bool>, end: bool, k: int) -> bool {
    if k + 1 < row.len() {
        row[k + 1]
    } else {
        end
    }
}

/// What stands behind a place is named as the row says of the next place.
proof fn lemma_next(p: Seq<char>, n: Seq<char>, row: Seq<bool>, end: bool, k: int)
    requires
        is_row(p, n, row, end),
        0 <= k < n.len(),
    ensures
        names(p, n.skip(k).drop_first()) == at_next(row, end, k),
{
    assert(n.skip(k).drop_first() =~= n.skip(k + 1));
    if k + 1 < n.len() {
        assert(row[k + 1] == names(p, n.skip(k + 1)));
    } else {
        assert(n.skip(k + 1) =~= Seq::empty());
    }
}

/// The row of a pattern from the row of what follows its first character.
fn row_before(Ghost(p): Ghost<Seq<char>>, c: char, n: &[char], row: &Vec<bool>, end: bool) -> (r: (
    Vec<bool>,
    bool,
))
    requires
        p.len() > 0,
        p[0] == c,
        is_row(p.drop_first(), n@, row@, end),
    ensures
        is_row(p, n@, r.0@, r.1),
{
    let ghost q = p.drop_first();
    let new_end = c == '*' && end;
    assert(new_end == names(p, Seq::empty()));
    let mut back: Vec<bool> = Vec::new();
    let mut after = new_end;
    let mut k: usize = n.len();
    let size: usize = n.len();
    assert(n@.skip(k as int) =~= Seq::<char>::empty());
    while k > 0
        invariant
            k <= size,
            size == n@.len(),
            back@.len() == size - k,
            q == p.drop_first(),
            p.len() > 0,
            p[0] == c,
            is_row(q, n@, row@, end),
            new_end == names(p, Seq::empty()),
            after == names(p, n@.skip(k as int)),
            forall|m: int|
                0 <= m < size - k ==> #[trigger] back@[m] == names(p, n@.skip(size - 1 - m)),
        decreases k,
    {
        k -= 1;
        let ghost rest = n@.skip(k as int);
        proof {
            lemma_next(q, n@, row@, end, k as int);
            assert(rest.drop_first() =~= n@.skip(k + 1));
            assert(rest[0] == n@[k as int]);
            assert(row@[k as int] == names(q, rest));
        }
        let here = if c == '*' {
            row[k] || after
        } else {
            (c == '?' || c == n[k]) && (if k + 1 < size {
                row[k + 1]
            } else {
                end
            })
        };
        back.push(here);
        after = here;
    }
    let mut out: Vec<bool> = Vec::new();
    let mut m: usize = 0;
    while m < size
        invariant
            m <= size,
            size == n@.len(),
            back@.len() == size,
            out@.len() == m,
            forall|i: int|
                0 <= i < size ==> #[trigger] back@[i] == names(p, n@.skip(size - 1 - i)),
            forall|i: int| 0 <= i < m ==> #[trigger] out@[i] == names(p, n@.skip(i)),
        decreases size - m,
    {
        assert(back@[size - 1 - m] == names(p, n@.skip(size - 1 - (size - 1 - m))));
        out.push(back[size - 1 - m]);
        m += 1;
    }
    (out, new_end)
}

/// Whether a pattern, the characters of one path component, names `name`.
pub fn name_matches(pattern: &str, name: &str) -> (r: bool)
    ensures
        r == names(pattern@, name@),
{
    let p = text::chars_of(pattern);
    let n = text::chars_of(name);
    let mut row: Vec<bool> = Vec::new();
    let mut end = true;
    let mut k: usize = 0;
    while k < n.len()
        invariant
            k <= n@.len(),
            row@.len() == k,
            forall|m: int| 0 <= m < k ==> #[trigger] row@[m] == false,
        decreases n@.len() - k,
    {
        row.push(false);
        k += 1;
    }
    let mut i: usize = p.len();
    assert(p@.skip(i as int) =~= Seq::<char>::empty());
    assert(is_row(p@.skip(i as int), n@, row@, end));
    while i > 0
        invariant
            i <= p@.len(),
            is_row(p@.skip(i as int), n@, row@, end),
        decreases i,
    {
        i -= 1;
        assert(p@.skip(i as int).drop_first() =~= p@.skip(i + 1));
        let (r, e) = row_before(Ghost(p@.skip(i as int)), p[i], n.as_slice(), &row, end);
        row = r;
        end = e;
    }
    assert(p@.skip(0) =~= p@);
    if n.len() == 0 {
        assert(n@ =~= Seq::<char>::empty());
        end
    } else {
        assert(n@.skip(0) =~= n@);
        row[0]
    }
}

/// A pattern without `*` and `?` names itself and nothing else.
pub proof fn law_plain_pattern(p: Seq<char>, n: Seq<char>)
    requires
        forall|i: int| 0 <= i < p.len() ==> !is_wild(#[trigger] p[i]),
    ensures
        names(p, n) <==> p == n,
    decreases p.len(),
{
    if p.len() > 0 && n.len() > 0 {
        assert(!is_wild(p[0]));
        let q = p.drop_first();
        assert forall|i: int| 0 <= i < q.len() implies !is_wild(#[trigger] q[i]) by {
            assert(q[i] == p[i + 1]);
        }
        law_plain_pattern(q, n.drop_first());
        if names(p, n) {
            assert forall|i: int| 0 <= i < p.len() implies p[i] == n[i] by {
                if i > 0 {
                    assert(q[i - 1] == n.drop_first()[i - 1]);
                }
            }
            assert(p =~= n);
        }
    } else if p.len() == 0 {
        assert(n.len() == 0 ==> p =~= n);
    } else {
        assert(!is_wild(p[0]));
    }
}

/// The pattern `*` names everything.
pub proof fn law_star_names_all(n: Seq<char>)
    ensures
        names(seq!['*'], n),
    decreases n.len(),
{
    let p = seq!['*'];
    assert(p.drop_first() =~= Seq::empty());
    if n.len() > 0 {
        law_star_names_all(n.drop_first());
    } else {
        assert(names(p.drop_first(), n));
    }
}

/// The components of a path, in order: what stands between its `/`, without
/// the empty ones and those that are `.`.
pub open spec fn components_of(path: Seq<char>) -> Seq<Seq<char>>
    decreases path.len(),
{
    if path.len() == 0 {
        Seq::empty()
    } else {
        proof {
            text::lemma_find_char(path, '/');
        }
        let n = text::find_char(path, '/');
        let head = path.take(n);
        let rest = if n < path.len() {
            components_of(path.skip(n + 1))
        } else {
            Seq::empty()
        };
        if head.len() == 0 || head == "."@ {
            rest
        } else {
            seq![head] + rest
        }
    }
}

/// The components of a path, in order.
pub fn components(path: &str) -> (r: Vec<String>)
    ensures
        text::texts(r@) == components_of(path@),
{
    let cs = text::chars_of(path);
    let s = cs.as_slice();
    let mut out: Vec<String> = Vec::new();
    let mut i: usize = 0;
    assert(s@.skip(0) =~= s@);
    assert(text::texts(out@) + components_of(s@) =~= components_of(s@));
    while i < s.len()
        invariant
            i <= s@.len(),
            text::texts(out@) + components_of(s@.skip(i as int)) == components_of(s@),
        decreases s@.len() - i,
    {
        let ghost rest = s@.skip(i as int);
        let ghost before = out@;
        let j = text::find_from(s, i, '/');
        let head = vstd::slice::slice_subrange(s, i, j);
        proof {
            assert(head@ =~= rest.take(j - i));
        }
        if head.len() > 0 && !text::is_text(head, ".") {
            out.push(text::string_of(head));
            assert(text::texts(out@) =~= text::texts(before).push(head@));
        }
        let next: usize = if j < s.len() {
            j + 1
        } else {
            j
        };
        proof {
            let tail = components_of(s@.skip(next as int));
            if j < s@.len() {
                assert(rest.skip(j - i + 1) =~= s@.skip(j + 1));
            } else {
                assert(s@.skip(next as int) =~= Seq::<char>::empty());
            }
            assert(text::texts(before) + (seq![head@] + tail) =~= text::texts(before).push(head@)
                + tail);
        }
        i = next;
    }
    assert(s@.skip(i as int) =~= Seq::<char>::empty());
    assert(text::texts(out@) + components_of(s@.skip(i as int)) =~= text::texts(out@));
    out
}

/// A character of `part` stands for others.
pub open spec fn has_wild(part: Seq<char>) -> bool {
    exists|i: int| 0 <= i < part.len() && is_wild(#[trigger] part[i])
}

/// Whether a component of a pattern may name more than itself.
pub fn is_pattern(part: &str) -> (r: bool)
    ensures
        r == has_wild(part@),
{
    let cs = text::chars_of(part);
    let mut i: usize = 0;
    while i < cs.len()
        invariant
            i <= cs@.len(),
            cs@ == part@,
            forall|j: int| 0 <= j < i ==> !is_wild(#[trigger] cs@[j]),
        decreases cs@.len() - i,
    {
        if cs[i] == '*' || cs[i] == '?' {
            assert(is_wild(part@[i as int]));
            return true;
        }
        i += 1;
    }
    false
}

// ---------- the files that patterns name ----------

/// A file that a pattern of the request names, and the size below which its
/// text is handed back whole.
#[derive(Debug, Clone, PartialEq, Eq)]
pub struct Found {
    pub path: String,
    pub limit: u64,
}

/// The contents of a [`Found`].
pub struct FoundModel {
    pub path: Seq<char>,
    pub limit: u64,
}

impl View for Found {
    type V = FoundModel;

    open spec fn view(&self) -> FoundModel {
        FoundModel { path: self.path@, limit: self.limit }
    }
}

/// The contents of each of `v`.
pub open spec fn found_models(v: Seq<Found>) -> Seq<FoundModel> {
    v.map_values(|f: Found| f@)
}

/// The size below which a text file that the capture names is handed back
/// whole.
pub open spec fn limit_of(c: CaptureModel) -> u64 {
    match c.inline_max_bytes {
        Some(n) => n,
        None => DEFAULT_INLINE_BYTES,
    }
}

/// A file at `path` is among those found.
pub open spec fn is_found(found: Seq<FoundModel>, path: Seq<char>) -> bool {
    exists|i: int| 0 <= i < found.len() && #[trigger] found[i].path == path
}

/// No file is among those found twice.
pub open spec fn is_distinct(found: Seq<FoundModel>) -> bool {
    forall|i: int, j: int|
        0 <= i < j < found.len() ==> #[trigger] found[i].path != #[trigger] found[j].path
}

/// The files found so far and the file at `path`, which a capture names: a
/// file found before stays as it is.
pub open spec fn noted(found: Seq<FoundModel>, c: CaptureModel, path: Seq<char>) -> Seq<
    FoundModel,
> {
    if is_found(found, path) {
        found
    } else {
        found.push(FoundModel { path, limit: limit_of(c) })
    }
}

/// Adds the file at `path`, which a capture names, unless it was found before.
pub fn note(found: &mut Vec<Found>, spec: &CaptureSpec, path: &str)
    ensures
        found_models(final(found)@) == noted(found_models(old(found)@), spec@, path@),
{
    let ghost all = found_models(found@);
    let mut i: usize = 0;
    while i < found.len()
        invariant
            i <= found@.len(),
            all == found_models(found@),
            found@ == old(found)@,
            forall|j: int| 0 <= j < i ==> #[trigger] all[j].path != path@,
        decreases found@.len() - i,
    {
        assert(all[i as int] == found@[i as int]@);
        if text::same_text(found[i].path.as_str(), path) {
            assert(all[i as int].path == path@);
            return;
        }
        i += 1;
    }
    let limit: u64 = match spec.inline_max_bytes {
        Some(n) => n,
        None => DEFAULT_INLINE_BYTES,
    };
    found.push(Found { path: path.to_owned(), limit });
    assert(found_models(found@) =~= all.push(FoundModel { path: path@, limit: limit_of(spec@) }));
}

/// A file that patterns name more than once is handed back once; none of
/// those found before is lost.
pub proof fn law_found_once(found: Seq<FoundModel>, c: CaptureModel, path: Seq<char>)
    requires
        is_distinct(found),
    ensures
        is_distinct(noted(found, c, path)),
        is_found(noted(found, c, path), path),
        forall|p: Seq<char>|
            is_found(noted(found, c, path), p) <==> (is_found(found, p) || p == path),
{
    let after = noted(found, c, path);
    if !is_found(found, path) {
        assert(after.last().path == path);
        assert forall|p: Seq<char>| is_found(after, p) <==> (is_found(found, p) || p == path) by {
            if is_found(found, p) {
                let i = choose|i: int| 0 <= i < found.len() && #[trigger] found[i].path == p;
                assert(after[i].path == p);
            }
            if is_found(after, p) && p != path {
                let i = choose|i: int| 0 <= i < after.len() && #[trigger] after[i].path == p;
                assert(found[i].path == p);
            }
        }
    }
}

// ---------- what is said of a file ----------

/// The hexadecimal digit of a number below sixteen, in lower case.
pub open spec fn hex_digit(n: int) -> char {
    if n < 10 {
        (n + '0' as int) as char
    } else {
        (n - 10 + 'a' as int) as char
    }
}

/// Bytes in lower-case hexadecimal, two digits for each.
pub open spec fn hex_of(bytes: Seq<u8>) -> Seq<char> {
    Seq::new(
        2 * bytes.len(),
        |i: int|
            hex_digit(
                if i % 2 == 0 {
                    bytes[i / 2] as int / 16
                } else {
                    bytes[i / 2] as int % 16
                },
            ),
    )
}

/// The hexadecimal digit of a number below sixteen.
fn digit(n: u8) -> (r: char)
    requires
        n < 16,
    ensures
        r == hex_digit(n as int),
{
    if n < 10 {
        (48u8 + n) as char
    } else {
        (97u8 + (n - 10)) as char
    }
}

/// Bytes in lower-case hexadecimal.
pub fn hex(bytes: &[u8]) -> (r: String)
    ensures
        r@ == hex_of(bytes@),
{
    let mut out = String::new();
    let mut i: usize = 0;
    assert(out@ =~= hex_of(bytes@.take(0)));
    while i < bytes.len()
        invariant
            i <= bytes@.len(),
            out@ == hex_of(bytes@.take(i as int)),
        decreases bytes@.len() - i,
    {
        let b: u8 = bytes[i];
        let ghost before = out@;
        out.push(digit(b / 16));
        out.push(digit(b % 16));
        i += 1;
        assert(out@ =~= hex_of(bytes@.take(i as int)));
    }
    assert(bytes@.take(i as int) =~= bytes@);
    out
}

/// `c` is a lower-case hexadecimal digit.
pub open spec fn is_hex_digit(c: char) -> bool {
    ('0' <= c && c <= '9') || ('a' <= c && c <= 'f')
}

/// Bytes in hexadecimal are twice as many lower-case digits.
pub proof fn law_hex_is_hex(bytes: Seq<u8>)
    ensures
        hex_of(bytes).len() == 2 * bytes.len(),
        forall|i: int| 0 <= i < hex_of(bytes).len() ==> is_hex_digit(#[trigger] hex_of(bytes)[i]),
{
}

/// Different numbers below sixteen have different digits.
proof fn lemma_hex_digit(a: int, b: int)
    requires
        0 <= a < 16,
        0 <= b < 16,
        hex_digit(a) == hex_digit(b),
    ensures
        a == b,
{
}

/// Different bytes have different hexadecimal digits.
pub proof fn law_hex_is_exact(a: Seq<u8>, b: Seq<u8>)
    requires
        hex_of(a) == hex_of(b),
    ensures
        a == b,
{
    law_hex_is_hex(a);
    law_hex_is_hex(b);
    assert forall|i: int| 0 <= i < a.len() implies a[i] == b[i] by {
        assert(hex_of(a)[2 * i] == hex_digit(a[i] as int / 16));
        assert(hex_of(b)[2 * i] == hex_digit(b[i] as int / 16));
        assert(hex_of(a)[2 * i + 1] == hex_digit(a[i] as int % 16));
        assert(hex_of(b)[2 * i + 1] == hex_digit(b[i] as int % 16));
        lemma_hex_digit(a[i] as int / 16, b[i] as int / 16);
        lemma_hex_digit(a[i] as int % 16, b[i] as int % 16);
    }
    assert(a =~= b);
}

/// The text of a file that is handed back whole: one below the limit that is
/// UTF-8.
pub open spec fn inline_text(bytes: Seq<u8>, limit: u64) -> Option<Seq<char>> {
    if bytes.len() < limit && valid_utf8(bytes) {
        Some(decode_utf8(bytes))
    } else {
        None
    }
}

/// What is said of a file with the given bytes and digest.
pub open spec fn artifact_of(f: FoundModel, bytes: Seq<u8>, digest: Seq<u8>) -> ArtifactModel {
    ArtifactModel {
        path: f.path,
        size: bytes.len() as u64,
        sha256: hex_of(digest),
        content: inline_text(bytes, f.limit),
        inlined: inline_text(bytes, f.limit) is Some,
    }
}

/// What is said of a file with the given bytes and digest.
pub fn describe(found: &Found, bytes: &[u8], digest: &[u8]) -> (r: Artifact)
    ensures
        r@ == artifact_of(found@, bytes@, digest@),
{
    let size: u64 = bytes.len() as u64;
    let content = if size < found.limit {
        outside::decode_exact(bytes)
    } else {
        None
    };
    let inlined = content.is_some();
    Artifact { path: found.path.clone(), size, sha256: hex(digest), content, inlined }
}

/// What is said of a file with the given bytes.
pub fn artifact(found: &Found, bytes: &[u8]) -> (r: Artifact)
    ensures
        r@ == artifact_of(found@, bytes@, outside::sha256_of(bytes@)),
        r@.sha256.len() == 64,
{
    let digest = outside::sha256(bytes);
    describe(found, bytes, digest.as_slice())
}

} // verus!
