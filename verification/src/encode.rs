//! Canonical byte encoding of the ledger's values. Hashes are computed over
//! these bytes, so the encoding is part of consensus: integers are fixed-width
//! little-endian, strings and sequences carry a 64-bit length prefix.

use vstd::prelude::*;
use vstd::bytes::{spec_u64_to_le_bytes, spec_u128_to_le_bytes, u64_to_le_bytes, u128_to_le_bytes};

verus! {

/// A 64-bit integer as eight little-endian bytes.
pub open spec fn enc_u64(x: u64) -> Seq<u8> {
    spec_u64_to_le_bytes(x)
}

/// A 128-bit integer as sixteen little-endian bytes.
pub open spec fn enc_u128(x: u128) -> Seq<u8> {
    spec_u128_to_le_bytes(x)
}

/// A character string as its length-prefixed UTF-8 bytes.
pub open spec fn enc_str(s: Seq<char>) -> Seq<u8> {
    let bytes = vstd::utf8::encode_utf8(s);
    enc_u64(bytes.len() as u64) + bytes
}

/// Appends the encoding of a 64-bit integer.
pub fn push_u64(out: &mut Vec<u8>, x: u64)
    ensures
        final(out)@ == old(out)@ + enc_u64(x),
{
    let mut bytes = u64_to_le_bytes(x);
    proof {
        vstd::bytes::lemma_auto_spec_u64_to_from_le_bytes();
    }
    out.append(&mut bytes);
}

/// Appends the encoding of a 128-bit integer.
pub fn push_u128(out: &mut Vec<u8>, x: u128)
    ensures
        final(out)@ == old(out)@ + enc_u128(x),
{
    let mut bytes = u128_to_le_bytes(x);
    proof {
        vstd::bytes::lemma_auto_spec_u128_to_from_le_bytes();
    }
    out.append(&mut bytes);
}

/// Appends raw bytes.
pub fn push_bytes(out: &mut Vec<u8>, data: &[u8])
    ensures
        final(out)@ == old(out)@ + data@,
{
    let mut i: usize = 0;
    while i < data.len()
        invariant
            i <= data@.len(),
            out@ =~= old(out)@ + data@.take(i as int),
        decreases data@.len() - i,
    {
        out.push(data[i]);
        proof {
            assert(data@.take(i + 1) =~= data@.take(i as int).push(data@[i as int]));
        }
        i = i + 1;
    }
    proof {
        assert(data@.take(data@.len() as int) =~= data@);
    }
}

/// Appends the length-prefixed UTF-8 encoding of a string.
pub fn push_str(out: &mut Vec<u8>, s: &str)
    ensures
        final(out)@ == old(out)@ + enc_str(s@),
{
    let bytes = s.as_bytes_vec();
    push_u64(out, bytes.len() as u64);
    push_bytes(out, bytes.as_slice());
}

} // verus!
