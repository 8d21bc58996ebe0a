//! The hash function that addresses blobs and nodes, and the empty sentinel.
use vstd::prelude::*;
use sha3::Digest;

verus! {

/// The Keccak-256 digest of a byte string.
pub uninterp spec fn keccak_of(data: Seq<u8>) -> Seq<u8>;

/// Relies on sha3::Keccak256 (through digest::Digest::digest): the 32-byte
/// Keccak-256 digest, which depends on the input bytes alone.
#[verifier::external_body]
pub(crate) fn keccak(data: &[u8]) -> (r: Vec<u8>)
    ensures
        r@ == keccak_of(data@),
        r@.len() == 32,
{
    sha3::Keccak256::digest(data).to_vec()
}

/// The sentinel that stands for "no node": 32 zero bytes.
pub open spec fn null_hash_spec() -> Seq<u8> {
    Seq::new(32, |i: int| 0u8)
}

/// The sentinel that stands for "no node": 32 zero bytes.
pub fn null_hash() -> (r: Vec<u8>)
    ensures
        r@ == null_hash_spec(),
{
    let mut r: Vec<u8> = Vec::new();
    let mut i: usize = 0;
    while i < 32
        invariant
            i <= 32,
            r@.len() == i,
            forall|j: int| 0 <= j < i ==> r@[j] == 0u8,
        decreases 32 - i,
    {
        r.push(0u8);
        i = i + 1;
    }
    assert(r@ =~= null_hash_spec());
    r
}

} // verus!
