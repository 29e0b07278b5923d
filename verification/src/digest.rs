//! The digest that places virtual nodes and keys on the ring.

use vstd::prelude::*;
use vstd::utf8::encode_utf8;
use crypto::digest::Digest;
use crypto::sha1::Sha1;

verus! {

/// The longest input that the digest takes, in bytes: it counts the bits of
/// its input in 64 bits.
pub const MAX_KEY_BYTES: u64 = 0x1fff_ffff_ffff_ffff;

/// `key` is short enough for the digest: its UTF-8 encoding has no more than
/// `MAX_KEY_BYTES` bytes.
pub open spec fn hashable(key: Seq<char>) -> bool {
    encode_utf8(key).len() <= MAX_KEY_BYTES
}

/// Whether `key` is short enough for the digest.
pub fn is_hashable(key: &str) -> (fits: bool)
    ensures
        fits == hashable(key@),
{
    key.as_bytes().len() as u64 <= MAX_KEY_BYTES
}

/// The SHA-1 digest of the UTF-8 encoding of `input`, written as lower-case
/// hexadecimal digits.
pub uninterp spec fn sha1_hex(input: Seq<char>) -> Seq<char>;

/// How many hexadecimal digits a digest has: two for each of the 20 bytes
/// of SHA-1.
pub const DIGEST_LEN: usize = 40;

/// `c` is one of the digits `0` to `9` and `a` to `f`.
pub open spec fn is_hex_digit(c: char) -> bool {
    ('0' <= c && c <= '9') || ('a' <= c && c <= 'f')
}

/// `digest` has the form of a digest: `DIGEST_LEN` lower-case hexadecimal
/// digits.
pub open spec fn is_digest(digest: Seq<char>) -> bool {
    &&& digest.len() == DIGEST_LEN
    &&& forall|i: int| 0 <= i < digest.len() ==> is_hex_digit(#[trigger] digest[i])
}

/// Generate a SHA-1 digest from a string key.
///
/// Trusted: feeds `key` to `crypto::sha1::Sha1` through `Digest::input_str`
/// and reads `Digest::result_str`. The digest depends on the characters of
/// `key` alone, so the contract gives it the name `sha1_hex`; of its form
/// the contract says what `result_str` shows, which writes the 160 bits of
/// the result as two lower-case hexadecimal digits for each byte. `Sha1`
/// panics on an input of 2^61 bytes or more, which the contract leaves out.
#[verifier::external_body]
pub fn hash_key(key: &str) -> (digest: String)
    requires
        hashable(key@),
    ensures
        digest@ == sha1_hex(key@),
        is_digest(digest@),
{
    let mut hasher = Sha1::new();
    hasher.input_str(key);
    hasher.result_str()
}

} // verus!
