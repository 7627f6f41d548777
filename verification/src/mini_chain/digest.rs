//! SHA-256 digests of text, written as lower-case hexadecimal.
use vstd::prelude::*;
use sha2::Digest;
use crate::text::{hex_lower, lemma_hex_lower_shape, to_hex_lower};

verus! {

/// The SHA-256 digest of a byte string, as `sha2::Sha256` computes it.
pub uninterp spec fn sha256(data: Seq<u8>) -> Seq<u8>;

/// Calls `sha2::Sha256::digest`, the one-shot form of `new`, `update` and
/// `finalize`. Claimed: the result is the digest of `data` (named
/// `sha256`), 32 bytes long, since the output type of `Sha256` is an array
/// of 32 bytes.
#[verifier::external_body]
fn sha256_digest(data: &[u8]) -> (r: Vec<u8>)
    ensures
        r@ == sha256(data@),
        r@.len() == 32,
{
    sha2::Sha256::digest(data).to_vec()
}

/// The hash of a text: the hexadecimal SHA-256 digest of its UTF-8 bytes.
pub open spec fn text_hash(text: Seq<char>) -> Seq<char> {
    hex_lower(sha256(vstd::utf8::encode_utf8(text)))
}

/// The hash of a text: the hexadecimal SHA-256 digest of its UTF-8 bytes.
pub fn hash_text(text: &String) -> (r: String)
    ensures
        r@ == text_hash(text@),
        r@.len() == 64,
        vstd::utf8::is_ascii_chars(r@),
{
    let bytes: &[u8] = text.as_str().as_bytes();
    let digest: Vec<u8> = sha256_digest(bytes);
    proof {
        lemma_hex_lower_shape(digest@);
    }
    to_hex_lower(digest.as_slice())
}

} // verus!
