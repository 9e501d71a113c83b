//! The calls whose results are taken on trust.

use vstd::prelude::*;
use vstd::utf8::decode_utf8;
use vstd::utf8::valid_utf8;

verus! {

/// What the standard library's `Debug` writes for a string: the string in
/// double quotes, with its quotes, backslashes and unprintable characters
/// escaped.
pub uninterp spec fn debug_text(s: Seq<char>) -> Seq<char>;

/// Formats with the `Debug` implementation of `str`. The contract says that
/// the text depends on the characters of `s` alone; which characters are
/// escaped, and how, is left unsaid.
#[verifier::external_body]
pub(crate) fn debug_quote(s: &str) -> (r: String)
    ensures
        r@ == debug_text(s@),
{
    format!("{:?}", s)
}

/// What `String::from_utf8_lossy` makes of bytes: their text, with a
/// replacement character for what is not UTF-8.
pub uninterp spec fn lossy_text(bytes: Seq<u8>) -> Seq<char>;

/// Decodes with `String::from_utf8_lossy`. The contract says that valid UTF-8
/// is decoded exactly and that the text depends on the bytes alone; how many
/// replacement characters stand for invalid bytes is left unsaid.
#[verifier::external_body]
pub(crate) fn decode_lossy(bytes: &[u8]) -> (r: String)
    ensures
        r@ == lossy_text(bytes@),
        valid_utf8(bytes@) ==> r@ == decode_utf8(bytes@),
{
    String::from_utf8_lossy(bytes).into_owned()
}

/// Decodes with `String::from_utf8`. The contract says that there is a text
/// exactly where the bytes are valid UTF-8, and that it is the text they
/// encode.
#[verifier::external_body]
pub(crate) fn decode_exact(bytes: &[u8]) -> (r: Option<String>)
    ensures
        r is Some <==> valid_utf8(bytes@),
        r matches Some(t) ==> t@ == decode_utf8(bytes@),
{
    String::from_utf8(bytes.to_vec()).ok()
}

/// The SHA-256 digest of a message.
pub uninterp spec fn sha256_of(message: Seq<u8>) -> Seq<u8>;

/// Hashes with `sha2::Sha256::digest`. The contract says that the digest has
/// 32 bytes and depends on the message alone.
#[verifier::external_body]
pub(crate) fn sha256(message: &[u8]) -> (r: Vec<u8>)
    ensures
        r@ == sha256_of(message@),
        r@.len() == 32,
{
    <sha2::Sha256 as sha2::Digest>::digest(message).to_vec()
}

/// What the first member of a gzip file holds, or the message that says why
/// it cannot be read to its end.
pub uninterp spec fn gunzip_of(archive: Seq<u8>) -> Result<Seq<u8>, Seq<char>>;

/// Decompresses with `flate2::read::GzDecoder`, read to its end or to the
/// first error. The contract says that there is an error exactly where the
/// file cannot be read to its end, that its message depends on the file alone,
/// and that without one the bytes are what the file holds. What bytes were
/// handed out in front of an error is left unsaid: how many these are depends
/// on the sizes of the reads.
#[verifier::external_body]
pub(crate) fn gunzip(archive: &[u8]) -> (r: (Vec<u8>, Option<String>))
    ensures
        match r.1 {
            None => gunzip_of(archive@) == Ok::<Seq<u8>, Seq<char>>(r.0@),
            Some(e) => gunzip_of(archive@) == Err::<Seq<u8>, Seq<char>>(e@),
        },
{
    let mut out = Vec::new();
    let mut decoder = flate2::read::GzDecoder::new(archive);
    match std::io::Read::read_to_end(&mut decoder, &mut out) {
        Ok(_) => (out, None),
        Err(e) => (out, Some(e.to_string())),
    }
}

} // verus!
