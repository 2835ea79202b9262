//! The trusted boundary to the base64 codec (RFC 4648 standard alphabet,
//! padded) and to std's UTF-8 decoder.

use vstd::prelude::*;
use vstd::utf8::decode_utf8;
use vstd::utf8::valid_utf8;
use base64::Engine;

verus! {

/// The text that the base64 crate's standard padded engine encodes `bytes`
/// to.
pub uninterp spec fn b64_encode_of(bytes: Seq<u8>) -> Seq<char>;

/// The bytes that the base64 crate's standard padded engine decodes `text`
/// to, or `None` where `text` is not valid padded base64.
pub uninterp spec fn b64_decode_of(text: Seq<char>) -> Option<Seq<u8>>;

/// Relies on base64's `Engine::encode` with the `STANDARD` engine: the result
/// is a function of the input bytes alone, decodes back to exactly those
/// bytes, and consists of alphabet and padding characters only, so it never
/// contains a line separator. Its one panic path, an overflow while computing
/// the encoded length, is unreachable: a slice holds at most `isize::MAX`
/// bytes and the encoding grows it by a factor of four thirds.
#[verifier::external_body]
pub(crate) fn b64_encode(bytes: &[u8]) -> (r: String)
    ensures
        r@ == b64_encode_of(bytes@),
        b64_decode_of(r@) == Some(bytes@),
        forall|i: int| 0 <= i < r@.len() ==> r@[i] != '\n',
{
    base64::engine::general_purpose::STANDARD.encode(bytes)
}

/// Relies on base64's `Engine::decode` with the `STANDARD` engine: it returns
/// the decoded bytes exactly where the input is valid padded base64, and an
/// error exactly otherwise.
#[verifier::external_body]
pub(crate) fn b64_decode(text: &str) -> (r: Option<Vec<u8>>)
    ensures
        match r {
            Some(v) => b64_decode_of(text@) == Some(v@),
            None => b64_decode_of(text@) is None,
        },
{
    match base64::engine::general_purpose::STANDARD.decode(text) {
        Ok(v) => Some(v),
        Err(_) => None,
    }
}

/// Relies on std's `String::from_utf8`: it returns the string whose UTF-8
/// encoding is exactly the given bytes, and fails exactly where the bytes are
/// not valid UTF-8.
#[verifier::external_body]
pub(crate) fn utf8_string(bytes: Vec<u8>) -> (r: Option<String>)
    ensures
        match r {
            Some(s) => valid_utf8(bytes@) && s@ == decode_utf8(bytes@),
            None => !valid_utf8(bytes@),
        },
{
    match String::from_utf8(bytes) {
        Ok(s) => Some(s),
        Err(_) => None,
    }
}

} // verus!
