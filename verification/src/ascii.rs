//! Turning a buffer of ASCII bytes into a `String`.

use vstd::prelude::*;

verus! {

/// The characters spelled by a sequence of ASCII bytes, one character per
/// byte, each with the byte's code point.
pub open spec fn ascii_view(s: Seq<u8>) -> Seq<char> {
    s.map_values(|b: u8| b as char)
}

/// Relies on `String::from_utf8`: a buffer of bytes below 128 is valid ASCII,
/// hence valid UTF-8, and decodes to exactly those code points, one character
/// per byte.
#[verifier::external_body]
pub fn ascii_bytes_to_string(v: Vec<u8>) -> (r: String)
    requires
        forall|i: int| 0 <= i < v@.len() ==> v@[i] < 128,
    ensures
        r@ == ascii_view(v@),
{
    String::from_utf8(v).unwrap_or_default()
}

} // verus!
