//! The calls that leave this library: SHA-1, hexadecimal text and the
//! UTF-8 check of the standard library. Their contracts are believed, not
//! proved.

use sha1::{Digest, Sha1};
use vstd::prelude::*;
use vstd::utf8::{decode_utf8, valid_utf8};

verus! {

/// The SHA-1 digest of a sequence of bytes.
pub uninterp spec fn sha1_digest(data: Seq<u8>) -> Seq<u8>;

/// The sixteen hexadecimal digits, in lower case.
pub open spec fn hex_digits() -> Seq<char> {
    seq!['0', '1', '2', '3', '4', '5', '6', '7', '8', '9', 'a', 'b', 'c', 'd', 'e', 'f']
}

/// The hexadecimal text of a sequence of bytes: two lower-case digits for
/// each byte, the high half first.
pub open spec fn hex_text(data: Seq<u8>) -> Seq<char> {
    Seq::new(
        2 * data.len(),
        |i: int|
            if i % 2 == 0 {
                hex_digits()[data[i / 2] as int / 16]
            } else {
                hex_digits()[data[i / 2] as int % 16]
            },
    )
}

/// Calls `Sha1::digest` of the crate `sha1`. Believed: the result is the
/// SHA-1 digest of `data`, a function of the bytes alone, and it is 20
/// bytes long.
#[verifier::external_body]
pub(crate) fn sha1_of(data: &[u8]) -> (digest: Vec<u8>)
    ensures
        digest@ == sha1_digest(data@),
        digest@.len() == 20,
{
    Sha1::digest(data).to_vec()
}

/// Calls `hex::encode`. Believed: the result holds two lower-case
/// hexadecimal digits for each byte of `data`, in order, the high half of a
/// byte before its low half.
#[verifier::external_body]
pub(crate) fn hex_of(data: &[u8]) -> (text: String)
    ensures
        text@ == hex_text(data@),
{
    hex::encode(data)
}

/// Calls `String::from_utf8` of the standard library. Believed: it gives
/// the text that the bytes encode where they are valid UTF-8, and nothing
/// where they are not.
#[verifier::external_body]
pub(crate) fn text_of(bytes: Vec<u8>) -> (text: Option<String>)
    ensures
        text is Some <==> valid_utf8(bytes@),
        text is Some ==> text.unwrap()@ == decode_utf8(bytes@),
{
    String::from_utf8(bytes).ok()
}

} // verus!
