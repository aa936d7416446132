//! Piece digests. The engine verifies a piece by hashing its assembled
//! bytes and comparing the digest with the descriptor's entry.

use sha1::Digest;
use vstd::prelude::*;

verus! {

/// Number of bytes in a piece digest.
pub const DIGEST_LEN: usize = 20;

/// The digest of a byte sequence. The hash function is supplied by an
/// outside crate; the engine only relies on it being a pure function of
/// the bytes.
pub uninterp spec fn digest_of(bytes: Seq<u8>) -> Seq<u8>;

/// Relies on sha1: the digest is 20 bytes and depends on the input
/// bytes alone.
#[verifier::external_body]
pub fn compute_digest(bytes: &[u8]) -> (r: Vec<u8>)
    ensures
        r@ == digest_of(bytes@),
        r@.len() == DIGEST_LEN,
{
    sha1::Sha1::digest(bytes).to_vec()
}

/// Byte-for-byte equality of two digests.
pub fn digests_equal(a: &Vec<u8>, b: &Vec<u8>) -> (r: bool)
    ensures
        r == (a@ == b@),
{
    if a.len() != b.len() {
        assert(a@ != b@);
        return false;
    }
    let mut i: usize = 0;
    while i < a.len()
        invariant
            i <= a.len(),
            a@.len() == b@.len(),
            forall|j: int| 0 <= j < i ==> a@[j] == b@[j],
        decreases a.len() - i,
    {
        if a[i] != b[i] {
            return false;
        }
        i = i + 1;
    }
    proof {
        assert(a@ =~= b@);
    }
    true
}

} // verus!
