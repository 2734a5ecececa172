//! Conversions between bytes, characters and strings.

use vstd::prelude::*;
use vstd::utf8::{decode_utf8, valid_utf8};

verus! {

/// What `String::from_utf8_lossy` makes of a byte sequence: valid UTF-8
/// decoded, every invalid sequence replaced with U+FFFD.
pub uninterp spec fn spec_utf8_lossy(bytes: Seq<u8>) -> Seq<char>;

/// The text `String::from_utf8_lossy` gives for `bytes`: for valid UTF-8
/// the plain decoding, else the decoding with replacements.
pub open spec fn lossy_text(bytes: Seq<u8>) -> Seq<char> {
    if valid_utf8(bytes) {
        decode_utf8(bytes)
    } else {
        spec_utf8_lossy(bytes)
    }
}

/// Decodes UTF-8 strictly (`std::str::from_utf8`): `None` unless the bytes are
/// valid UTF-8, and otherwise exactly the decoded characters.
#[verifier::external_body]
pub fn utf8_to_string(bytes: &[u8]) -> (res: Option<String>)
    ensures
        res is Some <==> valid_utf8(bytes@),
        res matches Some(s) ==> s@ == decode_utf8(bytes@),
{
    match std::str::from_utf8(bytes) {
        Ok(s) => Some(s.to_string()),
        Err(_) => None,
    }
}

/// Decodes UTF-8 with replacement (`String::from_utf8_lossy`). Its result is
/// a function of the bytes alone, and for valid UTF-8 it is the plain decoding;
/// how invalid sequences are replaced is not stated here.
#[verifier::external_body]
pub fn utf8_lossy(bytes: &[u8]) -> (res: String)
    ensures
        res@ == spec_utf8_lossy(bytes@),
        valid_utf8(bytes@) ==> res@ == decode_utf8(bytes@),
        res@ == lossy_text(bytes@),
{
    String::from_utf8_lossy(bytes).into_owned()
}

/// Collects characters into a `String` (`FromIterator<char>`).
#[verifier::external_body]
pub fn string_from_chars(chars: &[char]) -> (res: String)
    ensures
        res@ == chars@,
{
    chars.iter().collect()
}

/// The characters of a string, in order.
pub fn chars_of(s: &str) -> (res: Vec<char>)
    ensures
        res@ == s@,
{
    let mut out: Vec<char> = Vec::new();
    for c in it: s.chars()
        invariant
            out@ == it.seq().take(it.index() as int),
            it.seq() == s@,
    {
        out.push(c);
    }
    out
}

} // verus!
