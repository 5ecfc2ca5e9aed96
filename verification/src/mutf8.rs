//! The modified-UTF-8 text encoding of the wire format, behind trusted
//! wrappers around the cesu8 crate.

use vstd::prelude::*;

verus! {

/// The modified-UTF-8 (Java CESU-8) encoding of a character sequence:
/// supplementary characters become surrogate pairs, and the null character
/// becomes the two-byte overlong form.
pub uninterp spec fn mutf8_of(s: Seq<char>) -> Seq<u8>;

/// Relies on cesu8::to_java_cesu8: the encoding is a per-character function
/// of the text alone, and never fails.
#[verifier::external_body]
pub(crate) fn mutf8_encode(s: &str) -> (r: Vec<u8>)
    ensures
        r@ == mutf8_of(s@),
{
    cesu8::to_java_cesu8(s).into_owned()
}

/// Relies on cesu8::from_java_cesu8: decoding the encoding of any text
/// succeeds and returns exactly that text (the encoding is injective, and
/// the decoder inverts it on its image). Other byte strings may also decode
/// — the crate passes plain UTF-8 through, including forms the encoder never
/// emits — or be rejected; the contract claims nothing of them.
#[verifier::external_body]
pub(crate) fn mutf8_decode(b: &[u8]) -> (r: Option<String>)
    ensures
        forall|s: Seq<char>| b@ == mutf8_of(s) ==> r is Some && r.unwrap()@ == s,
{
    match cesu8::from_java_cesu8(b) {
        Ok(c) => Some(c.into_owned()),
        Err(_) => None,
    }
}

} // verus!
