//! Text out of the bytes that a program wrote.

use vstd::prelude::*;
use vstd::utf8::{decode_utf8, valid_utf8};

verus! {

/// The text that `String::from_utf8_lossy` makes of some bytes.
pub uninterp spec fn utf8_lossy(bytes: Seq<u8>) -> Seq<char>;

/// The text of some bytes: what they encode in UTF-8, and where they are not
/// valid UTF-8, the lossy conversion of them.
pub open spec fn text(bytes: Seq<u8>) -> Seq<char> {
    if valid_utf8(bytes) {
        decode_utf8(bytes)
    } else {
        utf8_lossy(bytes)
    }
}

/// Calls `String::from_utf8_lossy`. The result is a function of the bytes; for
/// valid UTF-8 it is the text that they encode. Which replacement characters
/// stand for invalid bytes is left to the name `utf8_lossy`.
#[verifier::external_body]
fn from_utf8_lossy(bytes: &[u8]) -> (s: String)
    ensures
        s@ == utf8_lossy(bytes@),
        valid_utf8(bytes@) ==> s@ == decode_utf8(bytes@),
{
    String::from_utf8_lossy(bytes).into_owned()
}

/// The text of some bytes, with invalid UTF-8 replaced.
pub fn decode(bytes: &[u8]) -> (s: String)
    ensures
        s@ == text(bytes@),
{
    from_utf8_lossy(bytes)
}

} // verus!
