//! Framing of the payload and of text fields: base64, gzip, UTF-8 and
//! percent-encoding, each provided by an outside crate or by std.

use vstd::prelude::*;
use vstd::utf8::{decode_utf8, valid_utf8};
use base64::Engine;
use std::io::Read;
use std::io::Write;

verus! {

/// The padded standard base64 text of `b`, as ASCII bytes.
pub uninterp spec fn base64_of(b: Seq<u8>) -> Seq<u8>;

/// Characters of the standard base64 alphabet, and the padding `=`.
pub open spec fn is_base64_byte(c: u8) -> bool {
    (65 <= c <= 90) || (97 <= c <= 122) || (48 <= c <= 57) || c == 43 || c == 47 || c == 61
}

/// Relies on base64's `STANDARD` engine `encode`: padded RFC 4648 text over
/// the standard alphabet, from which `decode` gives back the input alone.
#[verifier::external_body]
pub fn base64_encode(b: &[u8]) -> (r: Vec<u8>)
    ensures
        r@ == base64_of(b@),
        forall|i: int| 0 <= i < r@.len() ==> is_base64_byte(#[trigger] r@[i]),
        forall|v: Seq<u8>| #[trigger] base64_of(v) == r@ ==> v == b@,
{
    base64::engine::general_purpose::STANDARD.encode(b).into_bytes()
}

/// Relies on base64's `STANDARD` engine `decode`, which demands canonical
/// padding and no trailing bits: it accepts exactly the texts that `encode`
/// writes, and gives back what was encoded.
#[verifier::external_body]
pub fn base64_decode(t: &[u8]) -> (r: Option<Vec<u8>>)
    ensures
        r matches Some(v) ==> base64_of(v@) == t@,
        r is None ==> forall|v: Seq<u8>| #[trigger] base64_of(v) != t@,
        r matches Some(w) ==> forall|v: Seq<u8>| #[trigger] base64_of(v) == t@ ==> v == w@,
{
    base64::engine::general_purpose::STANDARD.decode(t).ok()
}

/// The gzip stream that flate2 writes for `data` at compression `level`.
pub uninterp spec fn gzip_of(data: Seq<u8>, level: u32) -> Seq<u8>;

/// What flate2 reads out of a gzip stream, if it is one.
pub uninterp spec fn gunzip_of(z: Seq<u8>) -> Option<Seq<u8>>;

/// Relies on flate2's `GzEncoder` over a `Vec`, which cannot fail to write;
/// levels run from 0 to 9. The stream is lossless: `GzDecoder` reads the
/// input back from it.
#[verifier::external_body]
pub fn gzip(data: &[u8], level: u32) -> (r: Vec<u8>)
    requires
        level <= 9,
    ensures
        r@ == gzip_of(data@, level),
        gunzip_of(r@) == Some(data@),
{
    let mut e = flate2::write::GzEncoder::new(Vec::new(), flate2::Compression::new(level));
    e.write_all(data).unwrap();
    e.finish().unwrap()
}

/// Relies on flate2's `GzDecoder` with `read_to_end`: lossless, so a stream
/// that `GzEncoder` wrote reads back as its input.
#[verifier::external_body]
pub fn gunzip(z: &[u8]) -> (r: Option<Vec<u8>>)
    ensures
        r matches Some(v) ==> gunzip_of(z@) == Some(v@),
        r is None ==> gunzip_of(z@) is None,
        r is None ==> forall|d: Seq<u8>, l: u32| #[trigger] gzip_of(d, l) != z@,
        r matches Some(w) ==> forall|d: Seq<u8>, l: u32| #[trigger] gzip_of(d, l) == z@ ==> d == w@,
{
    let mut out = Vec::new();
    match flate2::read::GzDecoder::new(z).read_to_end(&mut out) {
        Ok(_) => Some(out),
        Err(_) => None,
    }
}

/// Relies on std's `String::from_utf8`: it accepts exactly valid UTF-8.
#[verifier::external_body]
pub fn utf8_string(b: Vec<u8>) -> (r: Option<String>)
    ensures
        (r is Some) <==> valid_utf8(b@),
        r matches Some(s) ==> s@ == decode_utf8(b@),
{
    String::from_utf8(b).ok()
}

/// The percent-encoding of `s`.
pub uninterp spec fn url_encoded(s: Seq<char>) -> Seq<char>;

/// The text that a percent-encoded string stands for, if it is UTF-8.
pub uninterp spec fn url_decoded(s: Seq<char>) -> Option<Seq<char>>;

/// Relies on urlencoding's `encode`.
#[verifier::external_body]
pub fn url_encode(s: &str) -> (r: String)
    ensures
        r@ == url_encoded(s@),
{
    urlencoding::encode(s).into_owned()
}

/// Relies on urlencoding's `decode`, which fails where the decoded bytes are
/// not UTF-8.
#[verifier::external_body]
pub fn url_decode(s: &str) -> (r: Option<String>)
    ensures
        r matches Some(t) ==> url_decoded(s@) == Some(t@),
        r is None ==> url_decoded(s@) is None,
{
    match urlencoding::decode(s) {
        Ok(t) => Some(t.into_owned()),
        Err(_) => None,
    }
}

} // verus!
