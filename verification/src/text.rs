//! Text decoding for extension payloads. GIF comment and plain-text
//! payloads are decoded leniently: invalid byte sequences become the
//! Unicode replacement character rather than an error.

use vstd::prelude::*;

verus! {

/// The characters that lenient UTF-8 decoding yields for `bytes`: valid
/// sequences decode as usual, invalid ones become U+FFFD.
pub uninterp spec fn lossy_utf8(bytes: Seq<u8>) -> Seq<char>;

/// Relies on String::from_utf8_lossy: the decoding is a function of the
/// bytes alone, replacing invalid UTF-8 sequences with U+FFFD.
#[verifier::external_body]
pub(crate) fn lossy_string(bytes: &Vec<u8>) -> (r: String)
    ensures
        r@ == lossy_utf8(bytes@),
{
    String::from_utf8_lossy(bytes.as_slice()).into_owned()
}

} // verus!
