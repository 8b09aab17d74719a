use vstd::prelude::*;

verus! {

/// The Keccak-256 digest of a byte sequence. The digest is named, not
/// described: it depends on the input bytes alone, and nothing in this
/// crate relies on its internal structure.
pub uninterp spec fn keccak256_of(input: Seq<u8>) -> Seq<u8>;

/// Relies on alloy::primitives::keccak256: a 32-byte Keccak-256 digest,
/// a pure function of the input bytes.
#[verifier::external_body]
pub(crate) fn keccak256(input: &Vec<u8>) -> (r: Vec<u8>)
    ensures
        r@ == keccak256_of(input@),
        r@.len() == 32,
{
    alloy::primitives::keccak256(input.as_slice()).0.to_vec()
}

} // verus!
