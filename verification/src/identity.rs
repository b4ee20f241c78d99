//! Identity keys and capability tokens: the pure compute parts of the
//! identity cache and the saved-view registry — hexadecimal identity ids
//! truncated to their 128-bit prefix, web-safe base64 tokens, and the
//! percent-decoding of persisted sturdyref links.

use vstd::prelude::*;

verus! {

use base64::Engine;
use vstd::string::StrSliceExecFns;
use vstd::string::StringExecFns;
use vstd::string::StringSliceAdditionalSpecFns;
use crate::json::hex_digit;

/// Lowercase hexadecimal encoding: two digits per byte, in order.
pub open spec fn hex_of(b: Seq<u8>) -> Seq<char>
    decreases b.len(),
{
    if b.len() == 0 {
        seq![]
    } else {
        seq![hex_digit(b[0] as int / 16), hex_digit(b[0] as int % 16)] + hex_of(b.drop_first())
    }
}

pub proof fn lemma_hex_of_len(b: Seq<u8>)
    ensures
        hex_of(b).len() == 2 * b.len(),
    decreases b.len(),
{
    if b.len() > 0 {
        lemma_hex_of_len(b.drop_first());
    }
}

/// Relies on hex::encode: two lowercase hexadecimal digits per byte, most
/// significant nibble first.
#[verifier::external_body]
pub(crate) fn hex_encode(b: &[u8]) -> (r: String)
    ensures
        r@ == hex_of(b@),
{
    hex::encode(b)
}

/// The identity-cache key for a raw identity id: its hexadecimal text,
/// accepted only at the expected 32-byte length and truncated to the
/// 128-bit prefix under which the identity is cached.
pub fn identity_put_key(id: &[u8]) -> (r: Result<String, String>)
    ensures
        r is Ok <==> id@.len() == 32,
        r matches Ok(s) ==> s@ == hex_of(id@).subrange(0, 32),
{
    proof {
        lemma_hex_of_len(id@);
    }
    let text = hex_encode(id);
    let n = text.as_str().unicode_len();
    if n != 64 {
        Err(String::from_str("invalid identity ID"))
    } else {
        Ok(text.as_str().substring_char(0, 32).to_owned())
    }
}

/// The identity-cache key for an identity id already given as text:
/// accepted only at the expected 64-character length and truncated to its
/// 128-bit prefix.
pub fn truncated_text_id(text_id: &str) -> (r: Result<String, String>)
    ensures
        r is Ok <==> text_id@.len() == 64,
        r matches Ok(s) ==> s@ == text_id@.subrange(0, 32),
{
    let n = text_id.unicode_len();
    if n != 64 {
        Err(String::from_str("invalid identity ID"))
    } else {
        Ok(text_id.substring_char(0, 32).to_owned())
    }
}

/// What base64's web-safe decoding returns: the decoded bytes where the
/// input is a well-formed web-safe base64 text, nothing otherwise.
pub uninterp spec fn b64_url_decoded(s: Seq<char>) -> Option<Seq<u8>>;

/// Relies on base64's URL_SAFE engine: decoding succeeds exactly on
/// well-formed web-safe base64 text and returns bytes determined by the
/// input text alone; the error is returned as its message text.
#[verifier::external_body]
fn base64_url_decode(s: &str) -> (r: Result<Vec<u8>, String>)
    ensures
        r is Ok <==> b64_url_decoded(s@) is Some,
        r matches Ok(v) ==> Some(v@) == b64_url_decoded(s@),
{
    match base64::engine::general_purpose::URL_SAFE.decode(s) {
        Ok(v) => Ok(v),
        Err(e) => Err(format!("{}", e)),
    }
}

/// Decode a capability token from its web-safe text form, failing with the
/// decoder's message exactly when the text is not well-formed base64.
pub fn decode_web_token(token: &str) -> (r: Result<Vec<u8>, String>)
    ensures
        r is Ok <==> b64_url_decoded(token@) is Some,
        r matches Ok(v) ==> Some(v@) == b64_url_decoded(token@),
{
    base64_url_decode(token)
}

/// A byte that stands for a hexadecimal digit in a percent escape.
pub open spec fn is_hex_byte(b: u8) -> bool {
    (0x30 <= b && b <= 0x39) || (0x61 <= b && b <= 0x66) || (0x41 <= b && b <= 0x46)
}

pub open spec fn hex_byte_val(b: u8) -> int {
    if 0x30 <= b && b <= 0x39 {
        b - 0x30
    } else if 0x61 <= b && b <= 0x66 {
        b - 0x61 + 10
    } else {
        b - 0x41 + 10
    }
}

/// Percent-decoding: each `%` followed by two hexadecimal digits becomes
/// the byte they name; every other byte, a lone `%` included, stands for
/// itself.
pub open spec fn pct_decoded(b: Seq<u8>) -> Seq<u8>
    decreases b.len(),
{
    if b.len() == 0 {
        seq![]
    } else if b[0] == 0x25 && b.len() >= 3 && is_hex_byte(b[1]) && is_hex_byte(b[2]) {
        seq![(hex_byte_val(b[1]) * 16 + hex_byte_val(b[2])) as u8] + pct_decoded(b.skip(3))
    } else {
        seq![b[0]] + pct_decoded(b.skip(1))
    }
}

/// Whether percent-decoding replaces anything at all.
pub open spec fn pct_changed(b: Seq<u8>) -> bool
    decreases b.len(),
{
    if b.len() == 0 {
        false
    } else if b[0] == 0x25 && b.len() >= 3 && is_hex_byte(b[1]) && is_hex_byte(b[2]) {
        true
    } else {
        pct_changed(b.skip(1))
    }
}

/// Relies on url's percent_decode followed by if_any: the decoded bytes
/// when at least one percent escape was replaced, nothing otherwise.
#[verifier::external_body]
fn percent_decode_if_any(bytes: &[u8]) -> (r: Option<Vec<u8>>)
    ensures
        r is Some <==> pct_changed(bytes@),
        r matches Some(v) ==> v@ == pct_decoded(bytes@),
{
    url::percent_encoding::percent_decode(bytes).if_any()
}

/// Recover a sturdyref from the text a persisted symlink points to:
/// percent-decode it where any escape occurs, else take its bytes as they
/// stand.
pub fn read_sturdyref_symlink(pointed_to: &str) -> (r: Vec<u8>)
    ensures
        r@ == (if pct_changed(pointed_to.spec_bytes()) {
            pct_decoded(pointed_to.spec_bytes())
        } else {
            pointed_to.spec_bytes()
        }),
{
    let bytes = pointed_to.as_bytes();
    match percent_decode_if_any(bytes) {
        Some(v) => v,
        None => vstd::slice::slice_to_vec(bytes),
    }
}

} // verus!
