//! SHA-256 with the top two bits of the last byte cleared.
//!
//! Every Merkle node of a piece commitment is hashed with this masked
//! variant, so that each digest fits a BLS12-381 field element.

use vstd::prelude::*;

verus! {

/// The 32-byte SHA-256 digest of a byte string. The digest is a function
/// of the input bytes alone; its value is not axiomatized here.
pub uninterp spec fn sha256_of(data: Seq<u8>) -> Seq<u8>;

/// `d` with the top two bits of its last byte cleared.
pub open spec fn masked(d: Seq<u8>) -> Seq<u8> {
    if d.len() == 0 {
        d
    } else {
        d.update(d.len() - 1, d[d.len() - 1] & 0x3f)
    }
}

/// The masked SHA-256 digest used for every Merkle node.
pub open spec fn masked_sha256_of(data: Seq<u8>) -> Seq<u8> {
    masked(sha256_of(data))
}

/// Relies on `sha2::Sha256` through the one-shot `Digest::digest` API: the
/// result is the 32-byte SHA-256 digest of the input, a function of the
/// input bytes alone.
#[verifier::external_body]
fn sha256(data: &[u8]) -> (r: Vec<u8>)
    ensures
        r@ == sha256_of(data@),
        r@.len() == 32,
{
    <sha2::Sha256 as sha2::Digest>::digest(data).to_vec()
}

/// Law: masking a 32-byte digest keeps its length and clears the top two
/// bits of byte 31.
pub proof fn lemma_masked_top_bits(d: Seq<u8>)
    requires
        d.len() == 32,
    ensures
        masked(d).len() == 32,
        masked(d)[31] & 0xC0 == 0,
{
    let x = d[31];
    assert((x & 0x3f) & 0xC0 == 0) by (bit_vector);
}

/// A SHA-256 hasher whose digests have the top two bits of the last byte
/// cleared, as piece commitments require.
pub struct Sha256 {}

impl Sha256 {
    /// Hash `data` with SHA-256 and clear the top two bits of byte 31.
    pub fn hash(data: &[u8]) -> (r: Vec<u8>)
        ensures
            r@ == masked_sha256_of(data@),
            r@.len() == 32,
            r@[31] & 0xC0 == 0,
    {
        let mut h = sha256(data);
        let b = h[31];
        h[31] = b & 0x3f;
        proof {
            assert(h@ =~= masked(sha256_of(data@)));
            lemma_masked_top_bits(sha256_of(data@));
        }
        h
    }
}

} // verus!
