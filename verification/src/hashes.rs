//! Hashing primitives. The hash functions themselves live in outside crates;
//! their results are named by uninterpreted functions, and everything built
//! on top of them is verified against those names.

use vstd::prelude::*;

verus! {

/// The SHA-256 digest of a byte string: 32 bytes.
pub uninterp spec fn sha256_of(data: Seq<u8>) -> Seq<u8>;

/// The RIPEMD-160 digest of a byte string: 20 bytes.
pub uninterp spec fn ripemd160_of(data: Seq<u8>) -> Seq<u8>;

/// Relies on bitcoin_hashes::sha256::Hash::hash: the 32-byte SHA-256 digest,
/// a function of the input bytes alone.
#[verifier::external_body]
pub fn sha256(data: &[u8]) -> (r: [u8; 32])
    ensures
        r@ == sha256_of(data@),
{
    bitcoin_hashes::sha256::Hash::hash(data).to_byte_array()
}

/// Relies on bitcoin_hashes::ripemd160::Hash::hash: the 20-byte RIPEMD-160
/// digest, a function of the input bytes alone.
#[verifier::external_body]
pub fn ripemd160(data: &[u8]) -> (r: Vec<u8>)
    ensures
        r@ == ripemd160_of(data@),
        r@.len() == 20,
{
    bitcoin_hashes::ripemd160::Hash::hash(data).to_byte_array().to_vec()
}

/// The first four bytes of the double SHA-256 digest, appended to address
/// payloads to catch transcription errors.
pub open spec fn checksum_of(data: Seq<u8>) -> Seq<u8> {
    sha256_of(sha256_of(data)).take(4)
}

/// First four bytes of the double SHA-256 digest.
pub fn checksum(data: &[u8]) -> (r: Vec<u8>)
    ensures
        r@ == checksum_of(data@),
        r@.len() == 4,
{
    let first = sha256(data);
    let second = sha256(first.as_slice());
    let mut r: Vec<u8> = Vec::new();
    let mut i: usize = 0;
    while i < 4
        invariant
            i <= 4,
            second@ == sha256_of(sha256_of(data@)),
            second@.len() == 32,
            r@ =~= second@.take(i as int),
        decreases 4 - i,
    {
        r.push(second[i]);
        i = i + 1;
    }
    proof {
        assert(r@ =~= checksum_of(data@));
    }
    r
}

} // verus!
