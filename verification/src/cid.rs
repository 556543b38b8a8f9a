//! CIDv1 text encoding for piece commitments.
//!
//! A piece commitment CID is the multibase base32 (lower-case, unpadded)
//! encoding, prefixed with `b`, of: varint version 1, the varint multicodec
//! for an unsealed Filecoin piece, and a multihash header (varint code for
//! SHA-256 truncated to 254 bits, varint length 32) followed by the 32-byte
//! masked digest. The text is always 64 characters and starts with `baga`.

use vstd::prelude::*;

verus! {

/// The multicodec of an unsealed piece commitment.
pub const FIL_COMMITMENT_UNSEALED: u64 = 0xf101;

/// The multihash code of SHA-256 truncated to 254 bits by masking.
pub const SHA2_256_TRUNC254_PADDED: u64 = 0x1012;

/// The unsigned LEB128 encoding of `n`: seven bits per byte, low group
/// first, high bit set on every byte but the last.
pub open spec fn varint_spec(n: nat) -> Seq<u8>
    decreases n,
{
    if n < 128 {
        seq![n as u8]
    } else {
        seq![(128 + n % 128) as u8] + varint_spec(n / 128)
    }
}

pub fn varint(n: u64) -> (r: Vec<u8>)
    ensures
        r@ == varint_spec(n as nat),
    decreases n,
{
    if n < 128 {
        let mut v: Vec<u8> = Vec::new();
        v.push(n as u8);
        proof {
            assert(v@ =~= varint_spec(n as nat));
        }
        v
    } else {
        let mut v: Vec<u8> = Vec::new();
        v.push(128 + (n % 128) as u8);
        let mut rest = varint(n / 128);
        v.append(&mut rest);
        proof {
            assert(v@ =~= varint_spec(n as nat));
        }
        v
    }
}

/// Bit `i` of a byte string, most significant bit of each byte first; bits
/// past the end are zero.
pub open spec fn bit_spec(s: Seq<u8>, i: int) -> u8 {
    if 0 <= i && i / 8 < s.len() {
        (s[i / 8] >> ((7 - i % 8) as u8)) & 1
    } else {
        0
    }
}

pub proof fn lemma_bit_bound(s: Seq<u8>, i: int)
    ensures
        bit_spec(s, i) <= 1,
{
    if 0 <= i && i / 8 < s.len() {
        let x = s[i / 8];
        let k = (7 - i % 8) as u8;
        assert((x >> k) & 1 <= 1) by (bit_vector);
    }
}

/// The value of 5-bit group `j` of `s`, in the range `0..32`.
pub open spec fn b32_index(s: Seq<u8>, j: int) -> u8 {
    (16 * bit_spec(s, 5 * j) + 8 * bit_spec(s, 5 * j + 1) + 4 * bit_spec(s, 5 * j + 2) + 2
        * bit_spec(s, 5 * j + 3) + bit_spec(s, 5 * j + 4)) as u8
}

pub proof fn lemma_b32_index_bound(s: Seq<u8>, j: int)
    ensures
        b32_index(s, j) < 32,
{
    lemma_bit_bound(s, 5 * j);
    lemma_bit_bound(s, 5 * j + 1);
    lemma_bit_bound(s, 5 * j + 2);
    lemma_bit_bound(s, 5 * j + 3);
    lemma_bit_bound(s, 5 * j + 4);
}

/// The base32 lower-case alphabet (RFC 4648): `a`..`z` then `2`..`7`.
pub open spec fn b32_alpha(i: int) -> u8 {
    if i < 26 {
        (97 + i) as u8
    } else {
        (24 + i) as u8
    }
}

/// The unpadded base32 encoding of `s`: one character per 5-bit group.
pub open spec fn b32_of(s: Seq<u8>) -> Seq<u8> {
    Seq::new(((8 * s.len() + 4) / 5) as nat, |j: int| b32_alpha(b32_index(s, j) as int))
}

fn bit_at(s: &Vec<u8>, i: usize) -> (b: u8)
    ensures
        b == bit_spec(s@, i as int),
        b <= 1,
{
    let p = i / 8;
    if p < s.len() {
        let sh: u8 = 7 - (i % 8) as u8;
        let x = s[p];
        proof {
            assert((x >> sh) & 1 <= 1) by (bit_vector);
        }
        (x >> sh) & 1
    } else {
        0
    }
}

fn b32_group(s: &Vec<u8>, j: usize) -> (idx: u8)
    requires
        5 * j + 4 <= usize::MAX,
    ensures
        idx == b32_index(s@, j as int),
        idx < 32,
{
    let b0 = bit_at(s, 5 * j);
    let b1 = bit_at(s, 5 * j + 1);
    let b2 = bit_at(s, 5 * j + 2);
    let b3 = bit_at(s, 5 * j + 3);
    let b4 = bit_at(s, 5 * j + 4);
    16 * b0 + 8 * b1 + 4 * b2 + 2 * b3 + b4
}

fn b32_alpha_at(idx: u8) -> (c: u8)
    requires
        idx < 32,
    ensures
        c == b32_alpha(idx as int),
{
    if idx < 26 {
        97 + idx
    } else {
        24 + idx
    }
}

/// The unpadded base32 encoding of `s`.
pub fn base32_lower(s: &Vec<u8>) -> (r: Vec<u8>)
    requires
        s@.len() <= 0x0fff_ffff,
    ensures
        r@ == b32_of(s@),
{
    let n = s.len();
    let out_len = (8 * n + 4) / 5;
    let mut r: Vec<u8> = Vec::new();
    let mut j: usize = 0;
    while j < out_len
        invariant
            j <= out_len,
            out_len == (8 * s@.len() + 4) / 5,
            s@.len() <= 0x0fff_ffff,
            r@.len() == j,
            forall|k: int| 0 <= k < j ==> r@[k] == b32_alpha(b32_index(s@, k) as int),
        decreases out_len - j,
    {
        let idx = b32_group(s, j);
        let c = b32_alpha_at(idx);
        r.push(c);
        j = j + 1;
    }
    proof {
        assert(r@ =~= b32_of(s@));
    }
    r
}

/// The CID payload: version, piece multicodec, multihash header, digest.
pub open spec fn cid_payload(digest: Seq<u8>) -> Seq<u8> {
    varint_spec(1) + varint_spec(FIL_COMMITMENT_UNSEALED as nat) + varint_spec(
        SHA2_256_TRUNC254_PADDED as nat,
    ) + varint_spec(32) + digest
}

/// The CID text for a digest, as ASCII bytes: the multibase prefix `b`
/// followed by the base32 encoding of the payload.
pub open spec fn cid_ascii(digest: Seq<u8>) -> Seq<u8> {
    seq![98u8] + b32_of(cid_payload(digest))
}

/// The CID text for a 32-byte digest, as ASCII bytes.
pub fn cid_ascii_bytes(digest: &Vec<u8>) -> (r: Vec<u8>)
    requires
        digest@.len() == 32,
    ensures
        r@ == cid_ascii(digest@),
{
    let mut payload = varint(1);
    let mut t = varint(FIL_COMMITMENT_UNSEALED);
    payload.append(&mut t);
    let mut t = varint(SHA2_256_TRUNC254_PADDED);
    payload.append(&mut t);
    let mut t = varint(32);
    payload.append(&mut t);
    let mut t = vstd::slice::slice_to_vec(digest.as_slice());
    payload.append(&mut t);
    proof {
        assert(payload@ =~= cid_payload(digest@));
        lemma_varint_header_len();
    }
    let encoded = base32_lower(&payload);
    let mut r: Vec<u8> = Vec::new();
    r.push(98u8);
    let mut e = encoded;
    r.append(&mut e);
    proof {
        assert(r@ =~= cid_ascii(digest@));
    }
    r
}

proof fn lemma_varint_header_len()
    ensures
        varint_spec(1) == seq![1u8],
        varint_spec(FIL_COMMITMENT_UNSEALED as nat) == seq![0x81u8, 0xE2u8, 0x03u8],
        varint_spec(SHA2_256_TRUNC254_PADDED as nat) == seq![0x92u8, 0x20u8],
        varint_spec(32) == seq![0x20u8],
{
    reveal_with_fuel(varint_spec, 4);
    assert(varint_spec(FIL_COMMITMENT_UNSEALED as nat) =~= seq![0x81u8, 0xE2u8, 0x03u8]);
    assert(varint_spec(SHA2_256_TRUNC254_PADDED as nat) =~= seq![0x92u8, 0x20u8]);
}

/// Law: every character of a base32 encoding is ASCII.
pub proof fn lemma_b32_ascii(s: Seq<u8>)
    ensures
        crate::text::is_ascii_bytes(b32_of(s)),
{
    assert forall|i: int| 0 <= i < b32_of(s).len() implies b32_of(s)[i] < 128 by {
        lemma_b32_index_bound(s, i);
    }
}

/// Law: the CID text of a 32-byte digest is ASCII, is 64 characters long,
/// and starts with `baga`.
pub proof fn lemma_cid_shape(digest: Seq<u8>)
    requires
        digest.len() == 32,
    ensures
        crate::text::is_ascii_bytes(cid_ascii(digest)),
        cid_ascii(digest).len() == 64,
        cid_ascii(digest)[0] == 98,
        cid_ascii(digest)[1] == 97,
        cid_ascii(digest)[2] == 103,
        cid_ascii(digest)[3] == 97,
{
    lemma_varint_header_len();
    let p = cid_payload(digest);
    assert(p.len() == 39);
    assert(b32_of(p).len() == 63);
    lemma_b32_ascii(p);
    assert forall|i: int| 0 <= i < cid_ascii(digest).len() implies cid_ascii(digest)[i] < 128 by {
        if i > 0 {
            assert(cid_ascii(digest)[i] == b32_of(p)[i - 1]);
        }
    }
    // The first three base32 characters depend only on the constant header
    // bytes 0x01 and 0x81.
    assert(p[0] == 1u8);
    assert(p[1] == 0x81u8);
    assert((1u8 >> 7u8) & 1 == 0 && (1u8 >> 6u8) & 1 == 0 && (1u8 >> 5u8) & 1 == 0 && (1u8 >> 4u8)
        & 1 == 0 && (1u8 >> 3u8) & 1 == 0 && (1u8 >> 2u8) & 1 == 0 && (1u8 >> 1u8) & 1 == 0 && (1u8
        >> 0u8) & 1 == 1 && (
    0x81u8 >> 7u8) & 1 == 1 && (0x81u8 >> 6u8) & 1 == 0 && (0x81u8 >> 5u8) & 1 == 0 && (0x81u8
        >> 4u8) & 1 == 0 && (0x81u8 >> 3u8) & 1 == 0 && (0x81u8 >> 2u8) & 1 == 0 && (0x81u8 >> 1u8)
        & 1 == 0) by (bit_vector);
    assert(b32_index(p, 0) == 0);
    assert(b32_index(p, 1) == 6);
    assert(b32_index(p, 2) == 0);
    assert(cid_ascii(digest)[1] == b32_alpha(0));
    assert(cid_ascii(digest)[2] == b32_alpha(6));
    assert(cid_ascii(digest)[3] == b32_alpha(0));
}

} // verus!
