//! Byte strings read as text.

use vstd::prelude::*;
use vstd::string::StringSliceAdditionalSpecFns;
use vstd::utf8::{decode_utf8, encode_utf8_decode_utf8, valid_utf8};

verus! {

/// `std::str::from_utf8`, with its error dropped.
///
/// Trusted, on the word of the standard library's documentation: the call
/// succeeds exactly on the byte sequences that are valid UTF-8, and the
/// string slice it then returns is made of the very bytes it was given.
#[verifier::external_body]
fn str_from_utf8(bytes: &[u8]) -> (r: Option<&str>)
    ensures
        r is Some <==> valid_utf8(bytes@),
        r matches Some(text) ==> text.spec_bytes() == bytes@,
{
    match std::str::from_utf8(bytes) {
        Ok(text) => Some(text),
        Err(_) => None,
    }
}

/// The text that `bytes` spell in UTF-8, if they spell any.
pub open spec fn spec_text(bytes: Seq<u8>) -> Option<Seq<char>> {
    if valid_utf8(bytes) {
        Some(decode_utf8(bytes))
    } else {
        None
    }
}

/// Reads `bytes` as UTF-8 text: `None` where they are not valid UTF-8.
pub fn text_from_bytes(bytes: &[u8]) -> (r: Option<String>)
    ensures
        match r {
            Some(text) => spec_text(bytes@) == Some(text@),
            None => spec_text(bytes@) is None,
        },
{
    match str_from_utf8(bytes) {
        Some(text) => {
            proof {
                encode_utf8_decode_utf8(text@);
            }
            Some(text.to_owned())
        },
        None => None,
    }
}

} // verus!
