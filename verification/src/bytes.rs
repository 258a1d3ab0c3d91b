//! Byte-string building blocks: appending to a buffer, little-endian integers,
//! and the SHA-512 digest of `sha2`.

use sha2::Digest;
use vstd::prelude::*;
use vstd::string::StringSliceAdditionalSpecFns;

verus! {

/// The SHA-512 digest of a message, as `sha2::Sha512` computes it.
pub uninterp spec fn sha512_spec(m: Seq<u8>) -> Seq<u8>;

/// `Sha512::digest` over the whole message.
#[verifier::external_body]
fn sha2_sha512(m: &[u8]) -> (r: [u8; 64])
    ensures
        r@ == sha512_spec(m@),
{
    sha2::Sha512::digest(m).into()
}

/// The SHA-512 digest of `m`.
pub fn sha512(m: &[u8]) -> (r: [u8; 64])
    ensures
        r@ == sha512_spec(m@),
{
    sha2_sha512(m)
}

/// The 8 little-endian bytes of `x`.
pub open spec fn u64_le(x: u64) -> Seq<u8> {
    vstd::bytes::spec_u64_to_le_bytes(x)
}

/// Appends `src` to `out`.
pub fn push_bytes(out: &mut Vec<u8>, src: &[u8])
    ensures
        final(out)@ == old(out)@ + src@,
{
    let mut i: usize = 0;
    while i < src.len()
        invariant
            i <= src@.len(),
            out@ == old(out)@ + src@.subrange(0, i as int),
        decreases src@.len() - i,
    {
        out.push(src[i]);
        i = i + 1;
        assert(out@ =~= old(out)@ + src@.subrange(0, i as int));
    }
    assert(src@.subrange(0, src@.len() as int) =~= src@);
}

/// Appends the 8 little-endian bytes of `x` to `out`.
pub fn push_u64(out: &mut Vec<u8>, x: u64)
    ensures
        final(out)@ == old(out)@ + u64_le(x),
{
    let b = vstd::bytes::u64_to_le_bytes(x);
    push_bytes(out, b.as_slice());
}

/// The bytes of a string, as a vector.
pub fn str_bytes(s: &str) -> (r: Vec<u8>)
    ensures
        r@ == s.spec_bytes(),
{
    let mut out: Vec<u8> = Vec::new();
    push_bytes(&mut out, s.as_bytes());
    out
}

} // verus!
