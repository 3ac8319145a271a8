//! Base64, in which bytes travel inside JSON.
use base64::Engine;
use vstd::prelude::*;

verus! {

/// The text that `base64` writes for bytes: the standard alphabet, with padding.
pub uninterp spec fn encoded(bytes: Seq<u8>) -> Seq<char>;

/// The bytes that `base64` reads from a text in the standard alphabet, with padding.
pub uninterp spec fn decoded(text: Seq<char>) -> Option<Seq<u8>>;

/// `base64::engine::general_purpose::STANDARD.encode` writes a text that is a
/// function of the bytes, and that `decode` reads back to the same bytes. Like
/// every allocation it takes memory for granted.
#[verifier::external_body]
pub(crate) fn encode(bytes: &[u8]) -> (text: String)
    ensures
        text@ == encoded(bytes@),
        decoded(text@) == Some(bytes@),
{
    base64::engine::general_purpose::STANDARD.encode(bytes)
}

/// The bytes that a text stands for: none at all where it is empty.
pub open spec fn bytes_of(text: Seq<char>) -> Option<Seq<u8>> {
    if text.len() == 0 {
        Some(Seq::empty())
    } else {
        decoded(text)
    }
}

/// `base64::engine::general_purpose::STANDARD.decode` reads bytes from a text, and
/// nothing exactly where the text is no standard, padded base64. An empty text is
/// one: it stands for no bytes.
#[verifier::external_body]
pub(crate) fn decode(text: &str) -> (bytes: Option<Vec<u8>>)
    ensures
        match bytes {
            Some(bytes) => decoded(text@) == Some(bytes@),
            None => decoded(text@) is None,
        },
        text@.len() == 0 ==> bytes is Some && bytes->Some_0@.len() == 0,
{
    base64::engine::general_purpose::STANDARD.decode(text).ok()
}

/// The bytes that a text stands for: none at all where it is empty.
pub(crate) fn decode_document(text: &str) -> (bytes: Option<Vec<u8>>)
    ensures
        match bytes {
            Some(bytes) => bytes_of(text@) == Some(bytes@),
            None => bytes_of(text@) is None,
        },
{
    let bytes = decode(text);
    proof {
        if text@.len() == 0 {
            assert(bytes->Some_0@ =~= Seq::empty());
        }
    }
    bytes
}

} // verus!
