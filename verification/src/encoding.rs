//! Bytes as text.

use base64::Engine;
use vstd::prelude::*;

verus! {

/// What the standard engine of `base64` writes for bytes.
pub uninterp spec fn base64_text(bytes: Seq<u8>) -> Seq<char>;

/// What the standard engine of `base64` reads from a text; `None` where it
/// refuses it.
pub uninterp spec fn base64_bytes(s: Seq<char>) -> Option<Seq<u8>>;

/// How many bytes can be written as text: the text of more would outgrow what
/// a string can hold.
pub open spec fn is_encodable(bytes: Seq<u8>) -> bool {
    bytes.len() <= usize::MAX / 4
}

/// Writes bytes with `Engine::encode` of the standard engine of `base64`. The
/// result is named, and decoding gives the bytes back.
#[verifier::external_body]
pub(crate) fn encode(bytes: &[u8]) -> (r: String)
    requires
        is_encodable(bytes@),
    ensures
        r@ == base64_text(bytes@),
        base64_bytes(r@) == Some(bytes@),
{
    base64::engine::general_purpose::STANDARD.encode(bytes)
}

/// The content of optional bytes.
pub open spec fn bytes_of(bytes: Option<Vec<u8>>) -> Option<Seq<u8>> {
    match bytes {
        Some(bytes) => Some(bytes@),
        None => None,
    }
}

/// Reads bytes with `Engine::decode` of the standard engine of `base64`. The
/// result is named.
#[verifier::external_body]
pub(crate) fn decode(s: &str) -> (r: Option<Vec<u8>>)
    ensures
        bytes_of(r) == base64_bytes(s@),
{
    base64::engine::general_purpose::STANDARD.decode(s).ok()
}

/// Writes a sample of a video, a frame or its sound, as text for a request.
pub fn encode_sample(bytes: &[u8]) -> (r: String)
    requires
        is_encodable(bytes@),
    ensures
        r@ == base64_text(bytes@),
        base64_bytes(r@) == Some(bytes@),
{
    encode(bytes)
}

/// What `str::to_lowercase` makes of a text.
pub uninterp spec fn lowercase(s: Seq<char>) -> Seq<char>;

/// Writes a text in lower case with `str::to_lowercase`. The result, which
/// goes by the Unicode tables of the standard library, is named.
#[verifier::external_body]
pub(crate) fn to_lowercase(s: &str) -> (r: String)
    ensures
        r@ == lowercase(s@),
{
    s.to_lowercase()
}

} // verus!
