//! Content hashing: SHA-256 digests rendered as lowercase hexadecimal.

use vstd::prelude::*;
use sha2::{Digest, Sha256};

verus! {

/// The name of an object: 64 lowercase hexadecimal characters.
pub type ObjectHash = String;

/// The SHA-256 digest of `data`, as computed by the `sha2` crate.
pub uninterp spec fn sha256_digest(data: Seq<u8>) -> Seq<u8>;

/// Calls `sha2::Sha256::digest`: the result is the SHA-256 digest of `data`
/// (named `sha256_digest`), which is 32 bytes long.
#[verifier::external_body]
fn sha256(data: &[u8]) -> (res: Vec<u8>)
    ensures
        res@ == sha256_digest(data@),
        res@.len() == 32,
{
    Sha256::digest(data).to_vec()
}

/// The lowercase hexadecimal digit for `n` in `0..16`.
pub open spec fn hex_digit(n: int) -> char {
    seq!['0', '1', '2', '3', '4', '5', '6', '7', '8', '9', 'a', 'b', 'c', 'd', 'e', 'f'][n]
}

/// Each byte of `data` written as two lowercase hexadecimal digits, high nibble first.
pub open spec fn hex_lower(data: Seq<u8>) -> Seq<char>
    decreases data.len(),
{
    if data.len() == 0 {
        seq![]
    } else {
        hex_lower(data.drop_last()) + seq![
            hex_digit(data.last() as int / 16),
            hex_digit(data.last() as int % 16),
        ]
    }
}

/// A character that `u8::is_ascii_hexdigit` accepts: `0-9`, `a-f` or `A-F`.
pub open spec fn is_hex_char(c: char) -> bool {
    ('0' <= c && c <= '9') || ('a' <= c && c <= 'f') || ('A' <= c && c <= 'F')
}

/// Calls `hex::encode`, which writes each byte as two lowercase hexadecimal
/// digits, high nibble first.
#[verifier::external_body]
fn hex_encode(data: &[u8]) -> (res: String)
    ensures
        res@ == hex_lower(data@),
{
    hex::encode(data)
}

/// The hexadecimal rendering is twice as long as its input and made of hex digits.
pub proof fn lemma_hex_lower(data: Seq<u8>)
    ensures
        hex_lower(data).len() == 2 * data.len(),
        forall|i: int| 0 <= i < hex_lower(data).len() ==> is_hex_char(#[trigger] hex_lower(data)[i]),
    decreases data.len(),
{
    if data.len() > 0 {
        lemma_hex_lower(data.drop_last());
        let hi = data.last() as int / 16;
        let lo = data.last() as int % 16;
        assert(is_hex_char(hex_digit(hi)));
        assert(is_hex_char(hex_digit(lo)));
        let h = hex_lower(data);
        let p = hex_lower(data.drop_last());
        assert forall|i: int| 0 <= i < h.len() implies is_hex_char(#[trigger] h[i]) by {
            if i < p.len() {
                assert(h[i] == p[i]);
            }
        }
    }
}

/// The object name of `bytes`: the lowercase hex rendering of their SHA-256 digest.
pub open spec fn spec_hash_bytes(bytes: Seq<u8>) -> Seq<char> {
    hex_lower(sha256_digest(bytes))
}

/// Hashes `bytes` into an object name.
pub fn hash_bytes(bytes: &[u8]) -> (hash: ObjectHash)
    ensures
        hash@ == spec_hash_bytes(bytes@),
        hash@.len() == 64,
        forall|i: int| 0 <= i < 64 ==> is_hex_char(#[trigger] hash@[i]),
{
    let digest = sha256(bytes);
    proof {
        lemma_hex_lower(digest@);
    }
    hex_encode(digest.as_slice())
}

} // verus!
