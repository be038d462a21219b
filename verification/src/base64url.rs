//! Bytes as URL-safe base64 without padding.

use vstd::prelude::*;

use base64::Engine;

verus! {

/// The URL-safe base64 text of some bytes, without padding.
pub uninterp spec fn base64url_text(bytes: Seq<u8>) -> Seq<char>;

/// The bytes that a URL-safe base64 text without padding stands for, or the
/// text of the error.
pub uninterp spec fn base64url_bytes(text: Seq<char>) -> Result<Seq<u8>, Seq<char>>;

/// Whether decoding `text` gives `bytes`.
pub open spec fn stands_for(text: Seq<char>, bytes: Seq<u8>) -> bool {
    base64url_bytes(text) == Ok::<Seq<u8>, Seq<char>>(bytes)
}

/// Whether `c` is one of the 64 characters of the URL-safe alphabet.
pub open spec fn in_alphabet(c: char) -> bool {
    ||| 'A' <= c <= 'Z'
    ||| 'a' <= c <= 'z'
    ||| '0' <= c <= '9'
    ||| c == '-'
    ||| c == '_'
}

/// `base64::engine::general_purpose::URL_SAFE_NO_PAD.encode`: the text that
/// `base64url_text` names. It is made of the URL-safe alphabet, and decoding it
/// gives the bytes back.
#[verifier::external_body]
pub(crate) fn encode(bytes: &[u8]) -> (r: String)
    ensures
        r@ == base64url_text(bytes@),
        stands_for(r@, bytes@),
        forall|i: int| 0 <= i < r@.len() ==> in_alphabet(#[trigger] r@[i]),
{
    base64::engine::general_purpose::URL_SAFE_NO_PAD.encode(bytes)
}

/// `base64::engine::general_purpose::URL_SAFE_NO_PAD.decode`: the bytes, or the
/// text of the error, that `base64url_bytes` names.
#[verifier::external_body]
pub(crate) fn decode(text: &str) -> (r: Result<Vec<u8>, String>)
    ensures
        match r {
            Ok(bytes) => base64url_bytes(text@) == Ok::<Seq<u8>, Seq<char>>(bytes@),
            Err(e) => base64url_bytes(text@) == Err::<Seq<u8>, Seq<char>>(e@),
        },
{
    match base64::engine::general_purpose::URL_SAFE_NO_PAD.decode(text) {
        Ok(bytes) => Ok(bytes),
        Err(e) => Err(e.to_string()),
    }
}

} // verus!
