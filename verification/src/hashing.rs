//! The one cryptographic primitive of the library: a SHA-256 digest of a
//! byte sequence. Everything the accumulator and the proof engine compute
//! is stated over `sha256_of`, the name given to that digest.

use vstd::prelude::*;

use sha2::{Digest, Sha256};

verus! {

/// The SHA-256 digest of a byte sequence, as a sequence of bytes.
pub uninterp spec fn sha256_of(bytes: Seq<u8>) -> Seq<u8>;

/// Relies on sha2's `Sha256` (`Digest::new` / `update` / `finalize`):
/// the result is the SHA-256 digest of the input bytes, a function of the
/// input alone, and is 32 bytes long.
#[verifier::external_body]
pub(crate) fn sha256_digest(bytes: &[u8]) -> (r: Vec<u8>)
    ensures
        r@ == sha256_of(bytes@),
        r@.len() == 32,
{
    let mut hasher = Sha256::new();
    hasher.update(bytes);
    hasher.finalize().to_vec()
}

/// The digest a single block contributes as a leaf: the block is hashed
/// as it stands, with no tag or length prefix.
pub open spec fn leaf_hash_of(block: Seq<u8>) -> Seq<u8> {
    sha256_of(block)
}

/// The digest of an inner node: the hash of the left operand's bytes
/// followed by the right operand's, plain concatenation.
pub open spec fn parent_hash_of(left: Seq<u8>, right: Seq<u8>) -> Seq<u8> {
    sha256_of(left + right)
}

} // verus!
