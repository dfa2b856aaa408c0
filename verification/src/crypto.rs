//! What is computed outside this library: SHA-256, HMAC, base64 and chance.

use base64::engine::general_purpose::STANDARD;
use base64::Engine;
use hmac::{Hmac, Mac};
use sha2::{Digest, Sha256};
use vstd::prelude::*;

verus! {

/// The length in bytes of a SHA-256 digest, and of every SCRAM-SHA-256 key.
pub const KEY_LENGTH: usize = 32;

/// The length in bytes of a fresh salt.
pub const SALT_LENGTH: usize = 16;

/// The SHA-256 digest of `data`.
pub uninterp spec fn sha256_of(data: Seq<u8>) -> Seq<u8>;

/// `HMAC-SHA-256(key, message)`.
pub uninterp spec fn hmac_of(key: Seq<u8>, message: Seq<u8>) -> Seq<u8>;

/// `bytes` in base64: the standard alphabet, padded.
pub uninterp spec fn base64_text(bytes: Seq<u8>) -> Seq<char>;

/// The bytes that `text` is base64 of, where it is base64: the standard
/// alphabet, canonically padded.
pub uninterp spec fn base64_bytes(text: Seq<char>) -> Option<Seq<u8>>;

/// How long so many bytes are in base64: four characters for every three
/// bytes, the last of them padded.
pub open spec fn encoded_len(len: nat) -> nat {
    (len + 2) / 3 * 4
}

/// Whether so many bytes have a base64 text that fits in memory.
pub open spec fn encodable(len: nat) -> bool {
    encoded_len(len) <= isize::MAX
}

/// Whether the base64 of `bytes` is as long as it should be, holds no comma,
/// and reads back.
pub open spec fn reads_back(bytes: Seq<u8>) -> bool {
    let text = base64_text(bytes);
    &&& text.len() == encoded_len(bytes.len())
    &&& !text.contains(',')
    &&& base64_bytes(text) == Some(bytes)
}

/// The value behind an optional run of bytes.
pub open spec fn bytes_in(bytes: Option<Vec<u8>>) -> Option<Seq<u8>> {
    match bytes {
        Some(held) => Some(held@),
        None => None,
    }
}

/// `sha2::Sha256::digest`: the digest is a function of the data alone. What
/// the function computes is not stated.
#[verifier::external_body]
pub(crate) fn sha256(data: &[u8]) -> (digest: [u8; KEY_LENGTH])
    ensures
        digest@ == sha256_of(data@),
{
    Sha256::digest(data).into()
}

/// `hmac::Hmac::<sha2::Sha256>`, made from a key of any length, fed the
/// message once and finalized: the tag is a function of the key and the
/// message alone. What the function computes is not stated.
#[verifier::external_body]
pub(crate) fn hmac_sha256(key: &[u8], message: &[u8]) -> (tag: [u8; KEY_LENGTH])
    ensures
        tag@ == hmac_of(key@, message@),
{
    let mut mac = Hmac::<Sha256>::new_from_slice(key).expect("HMAC takes a key of any length");
    mac.update(message);
    mac.finalize().into_bytes().into()
}

/// `base64::Engine::encode` of the `STANDARD` engine: the text is a function
/// of the bytes alone, four characters for every three bytes with the last of
/// them padded, `decode` of the same engine reads the bytes back from it, and
/// there is no comma in it, as none is in the alphabet. The call would not
/// return for bytes whose text does not fit in memory.
#[verifier::external_body]
pub(crate) fn base64_encode(bytes: &[u8]) -> (text: String)
    requires
        encodable(bytes@.len()),
    ensures
        text@ == base64_text(bytes@),
        text@.len() == encoded_len(bytes@.len()),
        base64_bytes(text@) == Some(bytes@),
        !text@.contains(','),
{
    STANDARD.encode(bytes)
}

/// `base64::Engine::decode` of the `STANDARD` engine: whether the text is
/// base64, and of what bytes, is a function of the text alone. Which texts
/// are base64 is not stated.
#[verifier::external_body]
pub(crate) fn base64_decode(text: &str) -> (bytes: Option<Vec<u8>>)
    ensures
        bytes_in(bytes) == base64_bytes(text@),
{
    STANDARD.decode(text).ok()
}

/// `rand::random`: bytes of the thread's generator, which the operating
/// system seeds; the call does not return where the system has nothing to
/// seed it with. Nothing is stated of the bytes but their number.
#[verifier::external_body]
pub(crate) fn fresh_salt() -> (salt: [u8; SALT_LENGTH]) {
    rand::random()
}

} // verus!
