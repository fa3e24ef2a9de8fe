//! The BLAKE3 digest that commits headers, extrinsics and world state.
use vstd::prelude::*;

verus! {

/// What `blake3::hash` returns on a byte string.
pub uninterp spec fn blake3_digest(data: Seq<u8>) -> Seq<u8>;

/// `blake3::hash` of the blake3 crate, converted to its 32 bytes. Its
/// contract names the digest; it says nothing of its value.
#[verifier::external_body]
pub(crate) fn blake3_hash(data: &[u8]) -> (res: [u8; 32])
    ensures
        res@ == blake3_digest(data@),
{
    blake3::hash(data).into()
}

} // verus!
