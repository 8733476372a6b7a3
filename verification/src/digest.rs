//! SHA-256 content digests (sha2) and the content identities built on them.
use sha2::{Digest, Sha256};
use vstd::prelude::*;
use crate::text::{hex_text, push_hex};

verus! {

/// The SHA-256 digest of `data`, as sha2 computes it.
pub uninterp spec fn sha256(data: Seq<u8>) -> Seq<u8>;

/// `sha2::Sha256::digest`: the 32-byte SHA-256 digest of `data`.
#[verifier::external_body]
pub(crate) fn sha256_digest(data: &[u8]) -> (r: [u8; 32])
    ensures
        r@ == sha256(data@),
{
    Sha256::digest(data).into()
}

/// Lowercase hexadecimal SHA-256 of `data`: 64 characters.
pub open spec fn sha256_hex(data: Seq<u8>) -> Seq<char> {
    hex_text(sha256(data))
}

/// The lowercase hexadecimal SHA-256 digest of `data`.
pub fn hex_digest(data: &[u8]) -> (r: Vec<char>)
    ensures
        r@ == sha256_hex(data@),
        r@.len() == 64,
{
    let d = sha256_digest(data);
    let mut out: Vec<char> = Vec::new();
    push_hex(&mut out, &d);
    assert(out@ =~= sha256_hex(data@));
    out
}

} // verus!
