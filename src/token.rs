//! The digest as URL-safe text: base64 with the URL alphabet and no padding.
use crate::digest::{decode, decodes_to, encodable, encode, is_digest_of};
use crate::state::{GameData, Input};
use base64::Engine;
use vstd::prelude::*;

verus! {

/// The URL-safe, unpadded base64 text of some bytes.
pub uninterp spec fn url_base64(b: Seq<u8>) -> Seq<char>;

/// The bytes that a URL-safe, unpadded base64 text stands for, if it is one.
pub uninterp spec fn url_base64_decoded(s: Seq<char>) -> Option<Seq<u8>>;

/// A character of the URL-safe base64 alphabet.
pub open spec fn url_safe_char(c: char) -> bool {
    ('A' <= c <= 'Z') || ('a' <= c <= 'z') || ('0' <= c <= '9') || c == '-' || c == '_'
}

/// Relies on `base64::engine::general_purpose::URL_SAFE_NO_PAD.encode`: the text depends on
/// the bytes alone, and the same engine's `decode` gives the bytes back. Without padding it
/// has `ceil(4n / 3)` characters, all of the URL-safe alphabet. Its size computation panics
/// only on lengths near `usize::MAX`.
#[verifier::external_body]
fn to_base64(bytes: &Vec<u8>) -> (r: String)
    requires
        bytes@.len() <= 0x1000_0000,
    ensures
        r@ == url_base64(bytes@),
        url_base64_decoded(r@) == Some(bytes@),
        r@.len() == (4 * bytes@.len() + 2) / 3,
        forall|i: int| 0 <= i < r@.len() ==> url_safe_char(#[trigger] r@[i]),
{
    base64::engine::general_purpose::URL_SAFE_NO_PAD.encode(bytes)
}

/// Relies on `base64::engine::general_purpose::URL_SAFE_NO_PAD.decode`: the bytes, or an
/// error, depend on the text alone.
#[verifier::external_body]
fn from_base64(text: &str) -> (r: Option<Vec<u8>>)
    ensures
        match r {
            Some(b) => url_base64_decoded(text@) == Some(b@),
            None => url_base64_decoded(text@).is_none(),
        },
{
    base64::engine::general_purpose::URL_SAFE_NO_PAD.decode(text).ok()
}

/// The state as a token: its digest in URL-safe base64.
pub fn compress_input(data: &GameData, input: &Input) -> (r: String)
    requires
        data.wf(),
        encodable(*data, *input),
    ensures
        exists|b: Seq<u8>|
            is_digest_of(*data, *input, b) && r@ == url_base64(b) && url_base64_decoded(r@) == Some(b) && b.len()
                < 0x100000,
{
    let digest = encode(data, input);
    to_base64(&digest)
}

/// The state that a token stands for; an error where the text is not URL-safe base64 or its
/// bytes are no digest.
pub fn decompress_token(data: &GameData, token: &str) -> (r: Result<Input, String>)
    requires
        data.wf(),
    ensures
        url_base64_decoded(token@).is_none() ==> r.is_err(),
        url_base64_decoded(token@).is_some() && url_base64_decoded(token@).unwrap().len() < 0x1000_0000
            ==> decodes_to(*data, url_base64_decoded(token@).unwrap(), r),
{
    let bytes = match from_base64(token) {
        Some(b) => b,
        None => return Err("invalid base64".to_owned()),
    };
    if bytes.len() >= 0x1000_0000 {
        return Err("digest too long".to_owned());
    }
    decode(data, bytes.as_slice())
}

} // verus!
