//! The boundary to the standard library's UTF-8 machinery: turning
//! checked payload bytes into owned text, and a character into its
//! one-character string.

use vstd::prelude::*;

verus! {

use vstd::utf8::{decode_utf8, encode_utf8, valid_utf8};

/// Relies on `String::from_utf8`: it returns a string exactly when the bytes
/// are valid UTF-8, and that string's characters are their decoding.
#[verifier::external_body]
pub fn bytes_to_string(v: Vec<u8>) -> (r: Option<String>)
    ensures
        match r {
            Some(s) => valid_utf8(v@) && s@ == decode_utf8(v@),
            None => !valid_utf8(v@),
        },
{
    String::from_utf8(v).ok()
}

/// Relies on `String::from(char)`: a string holding exactly that character.
#[verifier::external_body]
pub fn char_string(c: char) -> (r: String)
    ensures
        r@ == seq![c],
{
    String::from(c)
}

/// The bytes of a string produced by `bytes_to_string` are the bytes it was
/// produced from.
pub proof fn lemma_string_bytes_round(b: Seq<u8>)
    requires
        valid_utf8(b),
    ensures
        encode_utf8(decode_utf8(b)) == b,
{
    vstd::utf8::decode_utf8_encode_utf8(b);
}

} // verus!
