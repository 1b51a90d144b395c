//! The anti-grinding digest behind the sorted allocation index.

use vstd::prelude::*;

verus! {

/// The 16-byte digest that blake2_128 yields for the given bytes; a function
/// of the bytes alone, the same in every process and on every machine.
pub uninterp spec fn blake2_128_of(data: Seq<u8>) -> Seq<u8>;

/// Relies on sp_io::hashing::blake2_128: a 128-bit Blake2b digest of the
/// input, determined by the input bytes alone.
#[verifier::external_body]
pub fn blake2_128(data: &[u8]) -> (r: [u8; 16])
    ensures
        r@ == blake2_128_of(data@),
{
    sp_io::hashing::blake2_128(data)
}

} // verus!
