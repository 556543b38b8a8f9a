//! The piece commitment (CommP) pipeline.
//!
//! The input bytes are zero-extended to the unpadded piece size, re-framed
//! with Fr32, split into 32-byte nodes, hashed with masked SHA-256, and
//! aggregated pairwise, left to right, into a balanced binary Merkle tree
//! whose root is encoded as a CIDv1 text.

use vstd::prelude::*;

use crate::bytes::lemma_skip_skip;
use crate::bytes::lemma_skip_take;
use crate::cid::cid_ascii;
use crate::cid::cid_ascii_bytes;
use crate::cid::lemma_cid_shape;
use crate::fr32_reader::Fr32Reader;
use crate::fr32_reader::fr32_stream;
use crate::fr32_reader::lemma_fr32_stream_len;
use crate::hasher::Sha256;
use crate::hasher::masked_sha256_of;
use crate::piece::MAX_PIECE_INPUT;
use crate::piece::PaddedPieceSize;
use crate::piece::is_pow2;
use crate::piece::lemma_padded_size_bounds;
use crate::piece::padded_size_spec;
use crate::piece::unpadded_of;
use crate::text::ascii_chars;
use crate::text::ascii_to_string;
use crate::text::dec_spec;
use crate::text::lemma_dec_spec_ascii;
use crate::zero_reader::ChunkSource;
use crate::zero_reader::ZeroPaddingReader;
use crate::zero_reader::deep;
use crate::zero_reader::padded_to;

verus! {

/// The size of a Merkle node, in bytes.
pub const NODE_SIZE: usize = 32;

/// Why a piece commitment could not be computed.
#[derive(Clone, Copy, Debug, PartialEq, Eq, Structural)]
pub enum CommPError {
    /// The input was empty.
    EmptyInput,
    /// The re-framed stream ended before all leaves were read.
    ShortRead,
}

/// The digest of an inner Merkle node: the masked hash of its children.
pub open spec fn hash_pair(l: Seq<u8>, r: Seq<u8>) -> Seq<u8> {
    masked_sha256_of(l + r)
}

/// One aggregation step: adjacent nodes are hashed pairwise, in order.
pub open spec fn merkle_level(s: Seq<Seq<u8>>) -> Seq<Seq<u8>> {
    Seq::new((s.len() / 2) as nat, |i: int| hash_pair(s[2 * i], s[2 * i + 1]))
}

/// The root of the balanced binary Merkle tree over `s`.
pub open spec fn merkle_root(s: Seq<Seq<u8>>) -> Seq<u8>
    decreases s.len(),
{
    if s.len() == 0 {
        Seq::<u8>::empty()
    } else if s.len() == 1 {
        s[0]
    } else {
        merkle_root(merkle_level(s))
    }
}

/// The masked leaf digests of a stream of `n` 32-byte nodes.
pub open spec fn leaf_hashes(stream: Seq<u8>, n: nat) -> Seq<Seq<u8>> {
    Seq::new(n, |i: int| masked_sha256_of(stream.subrange(32 * i, 32 * i + 32)))
}

/// The CommP digest of a byte string: the Merkle root over the masked leaf
/// hashes of its zero-extended, Fr32 re-framed stream.
pub open spec fn commp_digest_spec(data: Seq<u8>) -> Seq<u8> {
    let p = padded_size_spec(data.len());
    let stream = fr32_stream(padded_to(data, unpadded_of(p)));
    merkle_root(leaf_hashes(stream, (p / 32) as nat))
}

/// The CommP CID text of a byte string.
pub open spec fn commp_cid_text(data: Seq<u8>) -> Seq<char> {
    ascii_chars(cid_ascii(commp_digest_spec(data)))
}

/// Law: the piece commitment is deterministic: two computations over equal
/// inputs yield equal CID texts.
pub proof fn lemma_commp_deterministic(a: Seq<u8>, b: Seq<u8>)
    requires
        a == b,
    ensures
        commp_cid_text(a) == commp_cid_text(b),
{
}

/// A 32-byte piece commitment digest with its CID encoding.
pub struct Commitment {
    digest: Vec<u8>,
}

impl Commitment {
    pub closed spec fn digest(&self) -> Seq<u8> {
        self.digest@
    }

    pub closed spec fn wf(&self) -> bool {
        self.digest@.len() == 32
    }

    /// The CID text of this commitment.
    pub fn cid(&self) -> (r: String)
        requires
            self.wf(),
        ensures
            r@ == ascii_chars(cid_ascii(self.digest())),
            r@.len() == 64,
    {
        let ascii = cid_ascii_bytes(&self.digest);
        proof {
            lemma_cid_shape(self.digest@);
        }
        ascii_to_string(ascii)
    }
}

proof fn lemma_pow2_div32(p: nat)
    requires
        is_pow2(p),
        p >= 128,
    ensures
        is_pow2((p / 32) as nat),
        p / 32 >= 4,
        32 * (p / 32) == p,
{
    assert(p / 2 / 2 / 2 / 2 / 2 == p / 32) by (nonlinear_arith);
    assert(is_pow2((p / 2) as nat) && p / 2 >= 64);
    assert(is_pow2((p / 2 / 2) as nat) && p / 2 / 2 >= 32);
    assert(is_pow2((p / 2 / 2 / 2) as nat) && p / 2 / 2 / 2 >= 16);
    assert(is_pow2((p / 2 / 2 / 2 / 2) as nat) && p / 2 / 2 / 2 / 2 >= 8);
    assert(is_pow2((p / 2 / 2 / 2 / 2 / 2) as nat) && p / 2 / 2 / 2 / 2 / 2 >= 4);
    assert(p % 2 == 0 && (p / 2) % 2 == 0 && (p / 2 / 2) % 2 == 0 && (p / 2 / 2 / 2) % 2 == 0 && (p
        / 2 / 2 / 2 / 2) % 2 == 0);
    assert(32 * (p / 32) == p) by (nonlinear_arith)
        requires
            p % 2 == 0 && (p / 2) % 2 == 0 && (p / 2 / 2) % 2 == 0 && (p / 2 / 2 / 2) % 2 == 0 && (
            p / 2 / 2 / 2 / 2) % 2 == 0,
    ;
}

/// Computes the piece commitment for a zero-padded source whose quota is
/// the unpadded counterpart of `piece_size`: reads `piece_size / 32`
/// 32-byte leaves from the Fr32 re-framing of the source, hashes each, and
/// folds the balanced Merkle tree.
pub fn calculate_piece_commitment(source: ZeroPaddingReader, piece_size: PaddedPieceSize) -> (r:
    Result<Commitment, CommPError>)
    requires
        source.wf(),
        piece_size.wf(),
        source.quota() == unpadded_of(piece_size.size() as nat),
        piece_size.size() / 32 <= usize::MAX,
    ensures
        r is Ok,
        r matches Ok(c) ==> c.wf() && c.digest() == merkle_root(
            leaf_hashes(
                fr32_stream(source.pending()),
                (piece_size.size() / 32) as nat,
            ),
        ),
{
    let ghost stream0 = fr32_stream(source.pending());
    let ghost p = piece_size.size() as nat;
    proof {
        source.lemma_pending_len();
        lemma_pow2_div32(p);
        // The source stream is a whole number of 127-byte blocks, so the
        // re-framed stream is exactly the padded piece size.
        let q = p / 128;
        assert(p == 128 * q && unpadded_of(p) == 127 * q) by (nonlinear_arith)
            requires
                p % 128 == 0,
                q == p / 128,
                unpadded_of(p) == p - p / 128,
        ;
        assert(source.pending().len() % 127 == 0 && source.pending().len() / 127 == q)
            by (nonlinear_arith)
            requires
                source.pending().len() == 127 * q,
        ;
        lemma_fr32_stream_len(source.pending());
        assert(stream0.len() == q * 128);
        assert(stream0.len() == 32 * (p / 32)) by (nonlinear_arith)
            requires
                stream0.len() == q * 128,
                p == 128 * q,
                32 * (p / 32) == p,
        ;
    }
    let mut fr32_reader = Fr32Reader::new(source);
    let num_leafs: usize = (piece_size.get() / 32) as usize;
    let mut leaves: Vec<Vec<u8>> = Vec::new();
    let mut i: usize = 0;
    while i < num_leafs
        invariant
            i <= num_leafs,
            num_leafs as int == p / 32,
            stream0.len() == 32 * (p / 32),
            fr32_reader.wf(),
            fr32_reader.pending_total() == stream0.skip(32 * i),
            leaves@.len() == i,
            forall|k: int|
                0 <= k < i ==> (#[trigger] leaves@[k])@ == masked_sha256_of(
                    stream0.subrange(32 * k, 32 * k + 32),
                ),
            forall|k: int| 0 <= k < i ==> (#[trigger] leaves@[k])@.len() == 32,
        decreases num_leafs - i,
    {
        let mut buffer: Vec<u8> = vec![0u8; NODE_SIZE];
        let ghost pt_cur = fr32_reader.pending_total();
        let n = fr32_reader.read(&mut buffer);
        if n != NODE_SIZE {
            // The stream is long enough for every leaf, so this cannot
            // happen; a short read would otherwise be fatal.
            return Err(CommPError::ShortRead);
        }
        proof {
            assert(pt_cur.len() == stream0.len() - 32 * i);
            assert(buffer@.subrange(0, 32) =~= buffer@);
            lemma_skip_take(stream0, 32 * i, 32);
            assert(buffer@ == stream0.subrange(32 * i, 32 * i + 32));
            lemma_skip_skip(stream0, 32 * i, 32);
        }
        let h = Sha256::hash(buffer.as_slice());
        leaves.push(h);
        i = i + 1;
    }
    proof {
        assert(deep(leaves@) =~= leaf_hashes(stream0, (p / 32) as nat));
    }
    // Fold the balanced binary Merkle tree, hashing left-right pairs until
    // one digest remains.
    let mut layer = leaves;
    while layer.len() > 1
        invariant
            layer@.len() >= 1,
            layer@.len() <= usize::MAX,
            is_pow2(layer@.len() as nat),
            merkle_root(deep(layer@)) == merkle_root(leaf_hashes(stream0, (p / 32) as nat)),
            forall|k: int| 0 <= k < layer@.len() ==> (#[trigger] layer@[k])@.len() == 32,
        decreases layer@.len(),
    {
        let half = layer.len() / 2;
        let mut next: Vec<Vec<u8>> = Vec::new();
        let mut j: usize = 0;
        while j < half
            invariant
                j <= half,
                half == layer@.len() / 2,
                layer@.len() <= usize::MAX,
                layer@.len() >= 2,
                next@.len() == j,
                forall|k: int|
                    0 <= k < j ==> (#[trigger] next@[k])@ == merkle_level(deep(layer@))[k],
                forall|k: int| 0 <= k < j ==> (#[trigger] next@[k])@.len() == 32,
                forall|k: int| 0 <= k < layer@.len() ==> (#[trigger] layer@[k])@.len() == 32,
            decreases half - j,
        {
            let mut cat: Vec<u8> = Vec::new();
            cat.extend_from_slice(layer[2 * j].as_slice());
            cat.extend_from_slice(layer[2 * j + 1].as_slice());
            proof {
                assert(cat@ =~= layer@[2 * j]@ + layer@[2 * j + 1]@);
            }
            let h = Sha256::hash(cat.as_slice());
            next.push(h);
            proof {
                assert(next@[j as int]@ == merkle_level(deep(layer@))[j as int]);
            }
            j = j + 1;
        }
        proof {
            assert(layer@.len() % 2 == 0);
            assert(deep(next@) =~= merkle_level(deep(layer@)));
            assert(merkle_root(deep(layer@)) == merkle_root(merkle_level(deep(layer@))));
        }
        layer = next;
    }
    let ghost final_layer = layer@;
    let digest = match layer.pop() {
        Some(d) => d,
        None => {
            return Err(CommPError::ShortRead);
        },
    };
    proof {
        assert(deep(final_layer).len() == 1);
        assert(digest@ == deep(final_layer)[0]);
    }
    Ok(Commitment { digest })
}

/// Generates the CommP (piece commitment) CID text from the input bytes:
/// zero-padding, Fr32 re-framing, 32-byte leaves, masked SHA-256, and
/// balanced binary Merkle aggregation. Empty input is rejected; every
/// other input yields a 64-character CID text starting with `baga`.
pub fn commp_from_bytes(data: &[u8]) -> (r: Result<String, CommPError>)
    requires
        data@.len() <= MAX_PIECE_INPUT,
    ensures
        r is Err <==> data@.len() == 0,
        r matches Err(e) ==> e == CommPError::EmptyInput,
        r matches Ok(s) ==> s@ == commp_cid_text(data@) && s@.len() == 64 && s@[0] == 'b' && s@[1]
            == 'a' && s@[2] == 'g' && s@[3] == 'a',
{
    if data.is_empty() {
        return Err(CommPError::EmptyInput);
    }
    let file_size = data.len() as u64;
    let padded_piece = PaddedPieceSize::from_arbitrary_size(file_size);
    proof {
        lemma_padded_size_bounds(file_size as nat);
        assert(padded_piece.size() / 32 <= usize::MAX);
    }

    // Compute the unpadded size and zero-pad the input to it.
    let padded_with_zeroes = padded_piece.unpadded();
    let buffered = ChunkSource::from_bytes(vstd::slice::slice_to_vec(data));
    let zero_padding_reader = ZeroPaddingReader::new(buffered, padded_with_zeroes);

    let commitment = match calculate_piece_commitment(zero_padding_reader, padded_piece) {
        Ok(c) => c,
        Err(e) => {
            return Err(e);
        },
    };
    let cid_text = commitment.cid();
    proof {
        lemma_cid_shape(commitment.digest());
        assert(cid_text@[0] == 98u8 as char && cid_text@[1] == 97u8 as char && cid_text@[2]
            == 103u8 as char && cid_text@[3] == 97u8 as char);
        assert(98u8 as char == 'b' && 97u8 as char == 'a' && 103u8 as char == 'g');
    }
    Ok(cid_text)
}

/// Computes the padded piece size for a byte buffer, as decimal text.
pub fn padded_piece_size(data: &[u8]) -> (r: String)
    requires
        data@.len() <= MAX_PIECE_INPUT,
    ensures
        r@ == ascii_chars(dec_spec(padded_size_spec(data@.len()))),
{
    let padded_piece = PaddedPieceSize::from_arbitrary_size(data.len() as u64);
    let digits = crate::text::u64_to_dec(padded_piece.get());
    proof {
        lemma_dec_spec_ascii(padded_piece.size() as nat);
    }
    ascii_to_string(digits)
}

} // verus!
