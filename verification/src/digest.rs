//! SHA-256 digests, as `sha2` computes them, in lowercase hexadecimal.

use sha2::Digest;
use vstd::prelude::*;

use crate::text::{hex_text, to_hex};

verus! {

/// The SHA-256 digest of `data`.
pub uninterp spec fn sha256(data: Seq<u8>) -> Seq<u8>;

/// Calls `sha2::Sha256::digest`. Claimed: the result is the SHA-256 digest of
/// `data`, which is 32 bytes long.
#[verifier::external_body]
fn sha256_digest(data: &[u8]) -> (r: Vec<u8>)
    ensures
        r@ == sha256(data@),
        r@.len() == 32,
{
    sha2::Sha256::digest(data).to_vec()
}

/// Lowercase hexadecimal text of the SHA-256 digest of `data` (`format!("{:x}", digest)`).
pub open spec fn sha256_hex(data: Seq<u8>) -> Seq<char> {
    hex_text(sha256(data))
}

pub fn sha256_hex_of(data: &[u8]) -> (r: Vec<char>)
    ensures
        r@ == sha256_hex(data@),
        r@.len() == 64,
{
    let d = sha256_digest(data);
    proof {
        crate::text::lemma_hex_text_len(d@);
    }
    to_hex(d.as_slice())
}

} // verus!
