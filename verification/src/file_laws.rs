//! What holds of every stream that is read and of every file that is handed
//! back.

use vstd::prelude::*;
use vstd::utf8::encode_utf8;
use vstd::utf8::valid_utf8;
use crate::artifact;
use crate::artifact::FoundModel;
use crate::capture;
use crate::protocol::CaptureModel;
use crate::text;

verus! {

// ---------- streams ----------

/// A stream is read chunk after chunk. A chunk is kept as long as less than
/// five megabytes are, and then no more.
pub proof fn law_chunks_are_kept(chunks: Seq<Seq<u8>>, chunk: Seq<u8>)
    ensures
        capture::MAX_STREAM_BYTES == 5242880,
        capture::stream_of(Seq::empty()) == Seq::<u8>::empty(),
        capture::kept_of(Seq::empty()) == Seq::<u8>::empty(),
        capture::stream_of(chunks.push(chunk)) == capture::stream_of(chunks) + chunk,
        capture::kept_of(chunks).len() < 5242880 ==> capture::kept_of(chunks.push(chunk))
            == capture::kept_of(chunks) + chunk,
        capture::kept_of(chunks).len() >= 5242880 ==> capture::kept_of(chunks.push(chunk))
            == capture::kept_of(chunks),
{
    assert(chunks.push(chunk).drop_last() =~= chunks);
}

/// What is kept of a stream is its beginning: all of a stream of at most five
/// megabytes, and at least as much of a longer one.
pub proof fn law_five_megabytes_are_kept(chunks: Seq<Seq<u8>>)
    ensures
        ({
            let all = capture::stream_of(chunks);
            let kept = capture::kept_of(chunks);
            &&& kept.len() <= all.len()
            &&& forall|i: int| 0 <= i < kept.len() ==> #[trigger] kept[i] == all[i]
            &&& all.len() <= 5242880 ==> kept == all
            &&& all.len() > 5242880 ==> kept.len() >= 5242880
        }),
{
    capture::law_beginning_is_kept(chunks);
    let all = capture::stream_of(chunks);
    let kept = capture::kept_of(chunks);
    assert forall|i: int| 0 <= i < kept.len() implies #[trigger] kept[i] == all[i] by {
        assert(kept[i] == all.take(kept.len() as int)[i]);
    }
}

// ---------- patterns ----------

/// No pattern names nothing; a character names itself, `?` any one character,
/// and `*` any number of them.
pub proof fn law_pattern(c: char, p: Seq<char>, n: Seq<char>)
    requires
        c != '*',
        c != '?',
    ensures
        artifact::names(Seq::empty(), n) <==> n.len() == 0,
        artifact::names(seq![c] + p, n) <==> n.len() > 0 && n[0] == c && artifact::names(
            p,
            n.skip(1),
        ),
        artifact::names(seq!['?'] + p, n) <==> n.len() > 0 && artifact::names(p, n.skip(1)),
        artifact::names(seq!['*'] + p, n) <==> exists|k: int|
            0 <= k <= n.len() && #[trigger] artifact::names(p, n.skip(k)),
    decreases n.len(),
{
    let plain = seq![c] + p;
    let one = seq!['?'] + p;
    let star = seq!['*'] + p;
    assert(plain.drop_first() =~= p);
    assert(one.drop_first() =~= p);
    assert(star.drop_first() =~= p);
    assert(n.skip(0) =~= n);
    if n.len() > 0 {
        let t = n.drop_first();
        assert(n.skip(1) =~= t);
        law_pattern(c, p, t);
        if exists|k: int| 0 <= k <= t.len() && #[trigger] artifact::names(p, t.skip(k)) {
            let k = choose|k: int| 0 <= k <= t.len() && #[trigger] artifact::names(p, t.skip(k));
            assert(n.skip(k + 1) =~= t.skip(k));
            assert(artifact::names(p, n.skip(k + 1)));
        }
        if exists|k: int| 0 <= k <= n.len() && #[trigger] artifact::names(p, n.skip(k)) {
            let k = choose|k: int| 0 <= k <= n.len() && #[trigger] artifact::names(p, n.skip(k));
            if k > 0 {
                assert(n.skip(k) =~= t.skip(k - 1));
                assert(artifact::names(p, t.skip(k - 1)));
            }
        }
        if artifact::names(p, n) {
            assert(artifact::names(p, n.skip(0)));
        }
    } else {
        if artifact::names(p, n) {
            assert(artifact::names(p, n.skip(0)));
        }
    }
}

/// A name is a pattern exactly where it holds `*` or `?`.
pub proof fn law_wild(part: Seq<char>)
    ensures
        artifact::has_wild(part) <==> part.contains('*') || part.contains('?'),
{
    if artifact::has_wild(part) {
        let i = choose|i: int| 0 <= i < part.len() && artifact::is_wild(#[trigger] part[i]);
        assert(part.contains(part[i]));
    }
    if part.contains('*') {
        let i = choose|i: int| 0 <= i < part.len() && part[i] == '*';
        assert(artifact::is_wild(part[i]));
    }
    if part.contains('?') {
        let i = choose|i: int| 0 <= i < part.len() && part[i] == '?';
        assert(artifact::is_wild(part[i]));
    }
}

/// A path is cut at each `/`; nothing and a single dot between two of them are
/// left out.
pub proof fn law_path_is_cut(a: Seq<char>, b: Seq<char>)
    requires
        !a.contains('/'),
    ensures
        ({
            let own = if a.len() == 0 || a == seq!['.'] {
                Seq::<Seq<char>>::empty()
            } else {
                seq![a]
            };
            &&& artifact::components_of(a) == own
            &&& artifact::components_of(a + seq!['/'] + b) == own + artifact::components_of(b)
        }),
{
    reveal_strlit(".");
    assert("."@ =~= seq!['.']);
    let s = a + seq!['/'] + b;
    let n = a.len() as int;
    let none = Seq::<Seq<char>>::empty();
    assert forall|j: int| 0 <= j < n implies #[trigger] s[j] != '/' && a[j] != '/' by {
        assert(s[j] == a[j]);
        assert(a.contains(a[j]));
    }
    text::lemma_find_char_is(s, '/', n);
    assert forall|j: int| 0 <= j < n implies #[trigger] a[j] != '/' by {
        assert(a.contains(a[j]));
    }
    text::lemma_find_char_is(a, '/', n);
    assert(s.take(n) =~= a);
    assert(s.skip(n + 1) =~= b);
    assert(a.take(n) =~= a);
    assert(none + artifact::components_of(b) =~= artifact::components_of(b));
    assert(seq![a] + none =~= seq![a]);
}

// ---------- files ----------

/// A file is noted with the limit of its pattern, 64 kilobytes where that has
/// none, unless it was noted before: then nothing changes.
pub proof fn law_file_is_noted(found: Seq<FoundModel>, c: CaptureModel, path: Seq<char>)
    ensures
        ({
            let after = artifact::noted(found, c, path);
            let known = exists|i: int| 0 <= i < found.len() && (#[trigger] found[i]).path == path;
            &&& known ==> after == found
            &&& !known ==> {
                &&& after.len() == found.len() + 1
                &&& forall|i: int| 0 <= i < found.len() ==> #[trigger] after[i] == found[i]
                &&& after.last().path == path
                &&& c.inline_max_bytes matches Some(n) ==> after.last().limit == n
                &&& c.inline_max_bytes is None ==> after.last().limit == 65536
            }
        }),
{
    if artifact::is_found(found, path) {
        let i = choose|i: int| 0 <= i < found.len() && #[trigger] found[i].path == path;
        assert(found[i].path == path);
    }
    if exists|i: int| 0 <= i < found.len() && (#[trigger] found[i]).path == path {
        let i = choose|i: int| 0 <= i < found.len() && (#[trigger] found[i]).path == path;
        assert(found[i].path == path);
        assert(artifact::is_found(found, path));
    }
}

/// Each byte is written in hexadecimal as two digits, the larger part first.
pub proof fn law_hexadecimal(bytes: Seq<u8>, i: int)
    requires
        0 <= i < bytes.len(),
    ensures
        ({
            let digits = seq![
                '0',
                '1',
                '2',
                '3',
                '4',
                '5',
                '6',
                '7',
                '8',
                '9',
                'a',
                'b',
                'c',
                'd',
                'e',
                'f',
            ];
            let h = artifact::hex_of(bytes);
            &&& h.len() == 2 * bytes.len()
            &&& h[2 * i] == digits[bytes[i] as int / 16]
            &&& h[2 * i + 1] == digits[bytes[i] as int % 16]
        }),
{
    let digits = seq![
        '0',
        '1',
        '2',
        '3',
        '4',
        '5',
        '6',
        '7',
        '8',
        '9',
        'a',
        'b',
        'c',
        'd',
        'e',
        'f',
    ];
    assert forall|k: int| 0 <= k < 16 implies artifact::hex_digit(k) == #[trigger] digits[k] by {
    }
    let h = artifact::hex_of(bytes);
    assert(h[2 * i] == artifact::hex_digit(bytes[i] as int / 16));
    assert(h[2 * i + 1] == artifact::hex_digit(bytes[i] as int % 16));
}

/// A file is handed back with its path, its size and the digits of its digest;
/// with its text exactly where it is shorter than its limit and UTF-8, and the
/// text is what its bytes encode.
pub proof fn law_file_is_handed_back(f: FoundModel, bytes: Seq<u8>, digest: Seq<u8>)
    requires
        bytes.len() <= u64::MAX,
    ensures
        ({
            let a = artifact::artifact_of(f, bytes, digest);
            &&& a.path == f.path
            &&& a.size == bytes.len()
            &&& a.sha256 == artifact::hex_of(digest)
            &&& a.content is Some <==> bytes.len() < f.limit && valid_utf8(bytes)
            &&& a.content matches Some(t) ==> encode_utf8(t) == bytes
            &&& a.inlined <==> a.content is Some
        }),
{
    if valid_utf8(bytes) {
        vstd::utf8::decode_utf8_encode_utf8(bytes);
    }
}

} // verus!
