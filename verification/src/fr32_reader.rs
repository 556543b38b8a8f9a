//! Fr32 re-framing.
//!
//! Each 127-byte input block (1016 bits, four 254-bit field elements) is
//! re-framed into a 128-byte output block: four 256-bit field elements,
//! each with the top two bits of its last byte zero. The block is viewed as
//! eight little-endian 128-bit words; the first field element is the first
//! two words with the second word's top two bits cleared, and each later
//! element is shifted up by two more bits before the same masking.
//!
//! A trailing partial input block is zero-extended to 127 bytes before
//! processing, and only the output bytes that cover its payload bits are
//! emitted.

use vstd::prelude::*;

use crate::bytes::copy_into;
use crate::bytes::fill_zero;
use crate::bytes::lemma_add_empty;
use crate::bytes::lemma_add_skip;
use crate::bytes::lemma_empty_add;
use crate::bytes::lemma_skip_skip;
use crate::bytes::lemma_subrange_empty;
use crate::bytes::lemma_subrange_skip;
use crate::bytes::lemma_subrange_whole;
use crate::zero_reader::ZeroPaddingReader;
use crate::zero_reader::padded_to;

verus! {

/// The number of payload bytes in one input block.
pub const NUM_BYTES_IN_BLOCK: usize = 127;

/// The number of bytes in one output block.
pub const NUM_BYTES_OUT_BLOCK: usize = 128;

/// The number of bits in an unpadded field element.
pub const IN_BITS_FR: usize = 254;

/// The mask that clears the top two bits of a 128-bit word.
pub const MASK_SKIP_HIGH_2: u128 = 0x3fff_ffff_ffff_ffff_ffff_ffff_ffff_ffff;

/// The little-endian 128-bit word at byte offset `off` of `s`.
#[verifier::opaque]
pub open spec fn word_at(s: Seq<u8>, off: int) -> u128 {
    (s[off] as u128) | ((s[off + 1] as u128) << 8) | ((s[off + 2] as u128) << 16) | ((s[off
        + 3] as u128) << 24) | ((s[off + 4] as u128) << 32) | ((s[off + 5] as u128) << 40) | ((s[off
        + 6] as u128) << 48) | ((s[off + 7] as u128) << 56) | ((s[off + 8] as u128) << 64) | ((s[off
        + 9] as u128) << 72) | ((s[off + 10] as u128) << 80) | ((s[off + 11] as u128) << 88)
        | ((s[off + 12] as u128) << 96) | ((s[off + 13] as u128) << 104) | ((s[off + 14] as u128)
        << 112) | ((s[off + 15] as u128) << 120)
}

/// The 16 little-endian bytes of a 128-bit word.
#[verifier::opaque]
pub open spec fn le16(w: u128) -> Seq<u8> {
    seq![
        (w & 0xff) as u8,
        ((w >> 8) & 0xff) as u8,
        ((w >> 16) & 0xff) as u8,
        ((w >> 24) & 0xff) as u8,
        ((w >> 32) & 0xff) as u8,
        ((w >> 40) & 0xff) as u8,
        ((w >> 48) & 0xff) as u8,
        ((w >> 56) & 0xff) as u8,
        ((w >> 64) & 0xff) as u8,
        ((w >> 72) & 0xff) as u8,
        ((w >> 80) & 0xff) as u8,
        ((w >> 88) & 0xff) as u8,
        ((w >> 96) & 0xff) as u8,
        ((w >> 104) & 0xff) as u8,
        ((w >> 112) & 0xff) as u8,
        ((w >> 120) & 0xff) as u8,
    ]
}

/// Input word `i` of a 127-byte block: the block is extended with one zero
/// tail byte so that all eight words are full.
pub open spec fn in_word(blk: Seq<u8>, i: int) -> u128 {
    word_at(blk + seq![0u8], 16 * i)
}

/// The eight output words of one block, per the Fr32 shift-and-mask rule.
#[verifier::opaque]
pub open spec fn out_words(blk: Seq<u8>) -> Seq<u128> {
    seq![
        in_word(blk, 0),
        in_word(blk, 1) & MASK_SKIP_HIGH_2,
        (in_word(blk, 1) >> 126) | (in_word(blk, 2) << 2),
        ((in_word(blk, 2) >> 126) | (in_word(blk, 3) << 2)) & MASK_SKIP_HIGH_2,
        (in_word(blk, 3) >> 124) | (in_word(blk, 4) << 4),
        ((in_word(blk, 4) >> 124) | (in_word(blk, 5) << 4)) & MASK_SKIP_HIGH_2,
        (in_word(blk, 5) >> 122) | (in_word(blk, 6) << 6),
        ((in_word(blk, 6) >> 122) | (in_word(blk, 7) << 6)) & MASK_SKIP_HIGH_2,
    ]
}

/// The 128-byte output block for a 127-byte input block.
#[verifier::opaque]
pub open spec fn fr32_block(blk: Seq<u8>) -> Seq<u8> {
    let ow = out_words(blk);
    le16(ow[0]) + le16(ow[1]) + le16(ow[2]) + le16(ow[3]) + le16(ow[4]) + le16(ow[5]) + le16(ow[6])
        + le16(ow[7])
}

/// How many field elements a partial block of `b` payload bytes fills:
/// `ceil(8 * b / 254)`.
pub open spec fn fr_count(b: nat) -> nat {
    ((8 * b + 253) / 254) as nat
}

/// The whole re-framed stream for a source byte string: one 128-byte block
/// per full 127-byte input block, and for a trailing partial block only the
/// output bytes of the field elements its payload reaches.
pub open spec fn fr32_stream(src: Seq<u8>) -> Seq<u8>
    decreases src.len(),
{
    if src.len() == 0 {
        Seq::<u8>::empty()
    } else if src.len() >= 127 {
        fr32_block(src.take(127)) + fr32_stream(src.skip(127))
    } else {
        fr32_block(padded_to(src, 127)).take(32 * fr_count(src.len()) as int)
    }
}

pub proof fn lemma_fr32_block_len(blk: Seq<u8>)
    ensures
        fr32_block(blk).len() == 128,
{
    reveal(fr32_block);
    reveal(le16);
}

/// Law: the length of the re-framed stream of a source whose length is a
/// multiple of 127 is `128 / 127` of the source length.
pub proof fn lemma_fr32_stream_len(src: Seq<u8>)
    requires
        src.len() % 127 == 0,
    ensures
        fr32_stream(src).len() == src.len() / 127 * 128,
    decreases src.len(),
{
    if src.len() == 0 {
    } else {
        assert(src.len() >= 127);
        lemma_fr32_block_len(src.take(127));
        assert(src.skip(127).len() % 127 == 0);
        lemma_fr32_stream_len(src.skip(127));
    }
}

/// Law: in every output block, the byte that ends each of the four field
/// elements has its top two bits zero.
#[verifier::rlimit(60)]
pub proof fn lemma_fr32_block_top_bits(blk: Seq<u8>)
    ensures
        forall|k: int| 0 <= k < 4 ==> #[trigger] fr32_block(blk)[32 * k + 31] & 0xC0 == 0,
{
    assert forall|x: u128| #[trigger] ((((x & MASK_SKIP_HIGH_2) >> 120) & 0xff) as u8) & 0xC0
        == 0 by {
        assert(((((x & 0x3fff_ffff_ffff_ffff_ffff_ffff_ffff_ffff) >> 120) & 0xff) as u8) & 0xC0
            == 0) by (bit_vector);
    }
    reveal(fr32_block);
    reveal(le16);
    reveal(out_words);
    let ow = out_words(blk);
    assert(fr32_block(blk)[31] == le16(ow[1])[15]);
    assert(fr32_block(blk)[95] == le16(ow[5])[15]);
    assert(fr32_block(blk)[63] == le16(ow[3])[15]);
    assert(fr32_block(blk)[127] == le16(ow[7])[15]);
}

/// Law: every 32-byte node of the re-framed stream ends in a byte whose top
/// two bits are zero.
pub proof fn lemma_fr32_stream_top_bits(src: Seq<u8>)
    ensures
        forall|m: int|
            0 <= m && 32 * m + 31 < fr32_stream(src).len() ==> #[trigger] fr32_stream(src)[32 * m
                + 31] & 0xC0 == 0,
    decreases src.len(),
{
    if src.len() == 0 {
    } else if src.len() >= 127 {
        lemma_fr32_block_top_bits(src.take(127));
        lemma_fr32_block_len(src.take(127));
        lemma_fr32_stream_top_bits(src.skip(127));
        assert forall|m: int| 0 <= m && 32 * m + 31 < fr32_stream(src).len() implies #[trigger] fr32_stream(
            src,
        )[32 * m + 31] & 0xC0 == 0 by {
            if m < 4 {
                assert(fr32_stream(src)[32 * m + 31] == fr32_block(src.take(127))[32 * m + 31]);
            } else {
                assert(fr32_stream(src)[32 * m + 31] == fr32_stream(src.skip(127))[32 * (m - 4)
                    + 31]);
            }
        }
    } else {
        lemma_fr32_block_top_bits(padded_to(src, 127));
        lemma_fr32_block_len(padded_to(src, 127));
    }
}

/// One full input block: the staged window holds the next 127 source bytes,
/// and the stream is that block's output followed by the rest.
proof fn lemma_stream_step_full(p: Seq<u8>, window: Seq<u8>)
    requires
        p.len() >= 127,
        window == padded_to(p.take(127), 128),
    ensures
        window.subrange(0, 127) == p.take(127),
        fr32_stream(p) == fr32_block(window.subrange(0, 127)) + fr32_stream(p.skip(127)),
{
    assert(window.subrange(0, 127) =~= p.take(127));
}

/// One trailing partial block: the staged window holds the whole remaining
/// source zero-extended, and the stream is the prefix of that block's
/// output that covers the payload.
proof fn lemma_stream_step_partial(p: Seq<u8>, window: Seq<u8>)
    requires
        0 < p.len() < 127,
        window == padded_to(p.take(p.len() as int), 128),
    ensures
        window.subrange(0, 127) == padded_to(p, 127),
        fr32_stream(p) == fr32_block(window.subrange(0, 127)).take(32 * fr_count(p.len()) as int),
{
    assert(p.take(p.len() as int) =~= p);
    assert(window.subrange(0, 127) =~= padded_to(p, 127));
}

/// Division of `x` by `y`, rounding up.
pub fn div_ceil(x: usize, y: usize) -> (r: usize)
    requires
        x >= 1,
        y >= 1,
    ensures
        r as int == (x + y - 1) / (y as int),
{
    let r = 1 + ((x - 1) / y);
    proof {
        assert(1 + ((x - 1) / (y as int)) == (x + y - 1) / (y as int)) by (nonlinear_arith)
            requires
                x >= 1,
                y >= 1,
        ;
    }
    r
}

/// The little-endian 128-bit word at byte offset `off` of `buf`.
fn word_from_le(buf: &Vec<u8>, off: usize) -> (w: u128)
    requires
        off + 16 <= buf@.len(),
    ensures
        w == word_at(buf@, off as int),
{
    proof {
        reveal(word_at);
        assert(buf@.len() == buf.len());
    }
    (buf[off] as u128) | ((buf[off + 1] as u128) << 8) | ((buf[off + 2] as u128) << 16) | ((buf[off
        + 3] as u128) << 24) | ((buf[off + 4] as u128) << 32) | ((buf[off + 5] as u128) << 40)
        | ((buf[off + 6] as u128) << 48) | ((buf[off + 7] as u128) << 56) | ((buf[off + 8] as u128)
        << 64) | ((buf[off + 9] as u128) << 72) | ((buf[off + 10] as u128) << 80) | ((buf[off
        + 11] as u128) << 88) | ((buf[off + 12] as u128) << 96) | ((buf[off + 13] as u128) << 104)
        | ((buf[off + 14] as u128) << 112) | ((buf[off + 15] as u128) << 120)
}

/// The 16 little-endian bytes of a 128-bit word.
fn le_bytes16(w: u128) -> (r: Vec<u8>)
    ensures
        r@ == le16(w),
{
    proof {
        reveal(le16);
        assert((w & 0xff) < 256 && ((w >> 8) & 0xff) < 256 && ((w >> 16) & 0xff) < 256 && ((w >> 24)
            & 0xff) < 256 && ((w >> 32) & 0xff) < 256 && ((w >> 40) & 0xff) < 256 && ((w >> 48)
            & 0xff) < 256 && ((w >> 56) & 0xff) < 256 && ((w >> 64) & 0xff) < 256 && ((w >> 72)
            & 0xff) < 256 && ((w >> 80) & 0xff) < 256 && ((w >> 88) & 0xff) < 256 && ((w >> 96)
            & 0xff) < 256 && ((w >> 104) & 0xff) < 256 && ((w >> 112) & 0xff) < 256 && ((w >> 120)
            & 0xff) < 256) by (bit_vector);
    }
    let mut r: Vec<u8> = Vec::new();
    r.push((w & 0xff) as u8);
    r.push(((w >> 8) & 0xff) as u8);
    r.push(((w >> 16) & 0xff) as u8);
    r.push(((w >> 24) & 0xff) as u8);
    r.push(((w >> 32) & 0xff) as u8);
    r.push(((w >> 40) & 0xff) as u8);
    r.push(((w >> 48) & 0xff) as u8);
    r.push(((w >> 56) & 0xff) as u8);
    r.push(((w >> 64) & 0xff) as u8);
    r.push(((w >> 72) & 0xff) as u8);
    r.push(((w >> 80) & 0xff) as u8);
    r.push(((w >> 88) & 0xff) as u8);
    r.push(((w >> 96) & 0xff) as u8);
    r.push(((w >> 104) & 0xff) as u8);
    r.push(((w >> 112) & 0xff) as u8);
    r.push(((w >> 120) & 0xff) as u8);
    proof {
        reveal(le16);
        assert(r@ =~= le16(w));
    }
    r
}

/// A reader that re-frames its zero-padded source into Fr32 output blocks.
pub struct Fr32Reader {
    /// The source being padded.
    source: ZeroPaddingReader,
    /// The staging area for the block being read: 127 payload bytes plus
    /// one zero tail byte.
    in_buffer: Vec<u8>,
    /// The processed output block.
    out_buffer: Vec<u8>,
    /// How many bytes of `out_buffer` have been delivered.
    out_offset: usize,
    /// How many bytes of `out_buffer` are valid.
    out_len: usize,
    /// Whether the source has been exhausted.
    done: bool,
    /// The bytes delivered so far.
    history: Ghost<Seq<u8>>,
}

impl Fr32Reader {
    /// The bytes this reader has delivered so far.
    pub closed spec fn history(&self) -> Seq<u8> {
        self.history@
    }

    /// The bytes of the source that are still to be re-framed.
    pub closed spec fn source_pending(&self) -> Seq<u8> {
        self.source.pending()
    }

    /// The staging area contents.
    pub closed spec fn window(&self) -> Seq<u8> {
        self.in_buffer@
    }

    /// The processed output bytes not yet delivered.
    pub closed spec fn pending_out(&self) -> Seq<u8> {
        self.out_buffer@.subrange(self.out_offset as int, self.out_len as int)
    }

    pub closed spec fn is_done(&self) -> bool {
        self.done
    }

    /// The delivered/valid marks of the output block, as a pair.
    pub closed spec fn out_span(&self) -> (int, int) {
        (self.out_offset as int, self.out_len as int)
    }

    /// The bytes this reader still owes: the rest of the current output
    /// block, then the re-framing of the rest of the source.
    pub open spec fn pending_total(&self) -> Seq<u8> {
        self.pending_out() + (if self.is_done() {
            Seq::<u8>::empty()
        } else {
            fr32_stream(self.source_pending())
        })
    }

    /// Everything this reader will ever deliver. Reads leave this stream
    /// unchanged.
    pub open spec fn projected(&self) -> Seq<u8> {
        self.history() + self.pending_total()
    }

    pub closed spec fn wf(&self) -> bool {
        &&& self.source.wf()
        &&& self.in_buffer@.len() == 128
        &&& self.in_buffer@[127] == 0u8
        &&& self.out_buffer@.len() == 128
        &&& self.out_offset <= self.out_len
        &&& self.out_len <= 128
        &&& (self.done ==> self.out_offset == self.out_len)
    }

    pub fn new(source: ZeroPaddingReader) -> (r: Self)
        requires
            source.wf(),
        ensures
            r.wf(),
            r.history() == Seq::<u8>::empty(),
            r.is_done() == false,
            r.pending_total() == fr32_stream(source.pending()),
            r.projected() == fr32_stream(source.pending()),
    {
        let r = Fr32Reader {
            source,
            in_buffer: vec![0u8; 128],
            out_buffer: vec![0u8; 128],
            out_offset: 0,
            out_len: 0,
            done: false,
            history: Ghost(Seq::empty()),
        };
        proof {
            assert(r.pending_out() =~= Seq::<u8>::empty());
            assert(r.pending_total() =~= fr32_stream(source.pending()));
            assert(r.projected() =~= fr32_stream(source.pending()));
        }
        r
    }

    /// Read the next input block from the source: up to 127 bytes, looping
    /// over short reads, with the rest of the staging area zeroed.
    pub fn fill_in_buffer(&mut self) -> (r: usize)
        requires
            old(self).wf(),
        ensures
            final(self).wf(),
            r <= 127,
            r as int == if 127 <= old(self).source_pending().len() {
                127
            } else {
                old(self).source_pending().len() as int
            },
            final(self).window() == padded_to(old(self).source_pending().take(r as int), 128),
            final(self).source_pending() == old(self).source_pending().skip(r as int),
            final(self).history() == old(self).history(),
            final(self).pending_out() == old(self).pending_out(),
            final(self).out_span() == old(self).out_span(),
            final(self).is_done() == old(self).is_done(),
    {
        let ghost p0 = self.source.pending();
        let mut bytes_read: usize = 0;
        let mut eof = false;
        while !eof && bytes_read < NUM_BYTES_IN_BLOCK
            invariant
                bytes_read <= 127,
                bytes_read as int <= p0.len(),
                self.source.wf(),
                self.in_buffer@.len() == 128,
                self.in_buffer@[127] == 0u8,
                self.out_buffer == old(self).out_buffer,
                self.out_offset == old(self).out_offset,
                self.out_len == old(self).out_len,
                self.done == old(self).done,
                self.history == old(self).history,
                self.source.pending() == p0.skip(bytes_read as int),
                self.in_buffer@.subrange(0, bytes_read as int) == p0.take(bytes_read as int),
                eof ==> self.source.pending().len() == 0,
            decreases 127 - bytes_read + (if eof {
                0int
            } else {
                1int
            }),
        {
            let want: usize = NUM_BYTES_IN_BLOCK - bytes_read;
            let mut tmp: Vec<u8> = vec![0u8; want];
            let ghost p_cur = self.source.pending();
            let n = self.source.read(&mut tmp);
            if n == 0 {
                eof = true;
            } else {
                copy_into(&mut self.in_buffer, bytes_read, &tmp, 0, n);
                proof {
                    assert(n as int <= p_cur.len());
                    assert forall|k: int| 0 <= k < bytes_read + n implies #[trigger] self.in_buffer@[k]
                        == p0[k] by {
                        if k < bytes_read {
                            assert(self.in_buffer@[k] == p0.take(bytes_read as int)[k]);
                        } else {
                            assert(self.in_buffer@.subrange(bytes_read as int, bytes_read + n)[k
                                - bytes_read] == tmp@.subrange(0, n as int)[k - bytes_read]);
                            assert(tmp@.subrange(0, n as int)[k - bytes_read] == p_cur.take(
                                n as int,
                            )[k - bytes_read]);
                            assert(p0.skip(bytes_read as int)[k - bytes_read] == p0[k]);
                        }
                    }
                    assert(self.in_buffer@.subrange(0, bytes_read + n) =~= p0.take(
                        bytes_read + n,
                    ));
                    assert(p_cur.skip(n as int) =~= p0.skip(bytes_read + n));
                }
                bytes_read = bytes_read + n;
            }
        }
        let zero_from = bytes_read;
        fill_zero(&mut self.in_buffer, zero_from, NUM_BYTES_IN_BLOCK - zero_from);
        proof {
            assert(self.in_buffer@.subrange(0, bytes_read as int) =~= p0.take(bytes_read as int));
            assert(self.in_buffer@ =~= padded_to(p0.take(bytes_read as int), 128));
            assert(self.pending_out() =~= old(self).pending_out());
        }
        bytes_read
    }

    /// Re-frame the staged input block into the output block.
    #[verifier::rlimit(60)]
    fn process_block(&mut self)
        requires
            old(self).wf(),
        ensures
            final(self).wf(),
            final(self).out_buffer@ == fr32_block(old(self).in_buffer@.subrange(0, 127)),
            final(self).in_buffer == old(self).in_buffer,
            final(self).source == old(self).source,
            final(self).out_offset == old(self).out_offset,
            final(self).out_len == old(self).out_len,
            final(self).done == old(self).done,
            final(self).history == old(self).history,
    {
        let ghost blk = self.in_buffer@.subrange(0, 127);
        proof {
            assert(self.in_buffer@ =~= blk + seq![0u8]);
        }
        let w0 = word_from_le(&self.in_buffer, 0);
        let w1 = word_from_le(&self.in_buffer, 16);
        let w2 = word_from_le(&self.in_buffer, 32);
        let w3 = word_from_le(&self.in_buffer, 48);
        let w4 = word_from_le(&self.in_buffer, 64);
        let w5 = word_from_le(&self.in_buffer, 80);
        let w6 = word_from_le(&self.in_buffer, 96);
        let w7 = word_from_le(&self.in_buffer, 112);

        // First field element: 128 bits, then 126 bits masked to end it at
        // bit 254. Each later element starts two bits further down.
        let o0 = w0;
        let o1 = w1 & MASK_SKIP_HIGH_2;
        let o2 = (w1 >> 126) | (w2 << 2);
        let o3 = ((w2 >> 126) | (w3 << 2)) & MASK_SKIP_HIGH_2;
        let o4 = (w3 >> 124) | (w4 << 4);
        let o5 = ((w4 >> 124) | (w5 << 4)) & MASK_SKIP_HIGH_2;
        let o6 = (w5 >> 122) | (w6 << 6);
        let o7 = ((w6 >> 122) | (w7 << 6)) & MASK_SKIP_HIGH_2;

        proof {
            reveal(out_words);
            let ow = out_words(blk);
            assert(in_word(blk, 0) == word_at(self.in_buffer@, 0));
            assert(in_word(blk, 1) == word_at(self.in_buffer@, 16));
            assert(in_word(blk, 2) == word_at(self.in_buffer@, 32));
            assert(in_word(blk, 3) == word_at(self.in_buffer@, 48));
            assert(in_word(blk, 4) == word_at(self.in_buffer@, 64));
            assert(in_word(blk, 5) == word_at(self.in_buffer@, 80));
            assert(in_word(blk, 6) == word_at(self.in_buffer@, 96));
            assert(in_word(blk, 7) == word_at(self.in_buffer@, 112));
            assert(ow[0] == o0 && ow[1] == o1 && ow[2] == o2 && ow[3] == o3 && ow[4] == o4 && ow[5]
                == o5 && ow[6] == o6 && ow[7] == o7);
        }
        let mut out = le_bytes16(o0);
        let mut t = le_bytes16(o1);
        out.append(&mut t);
        let mut t = le_bytes16(o2);
        out.append(&mut t);
        let mut t = le_bytes16(o3);
        out.append(&mut t);
        let mut t = le_bytes16(o4);
        out.append(&mut t);
        let mut t = le_bytes16(o5);
        out.append(&mut t);
        let mut t = le_bytes16(o6);
        out.append(&mut t);
        let mut t = le_bytes16(o7);
        out.append(&mut t);
        self.out_buffer = out;
        proof {
            reveal(fr32_block);
            reveal(out_words);
            lemma_fr32_block_len(blk);
            let ow = out_words(blk);
            assert(self.out_buffer@ == le16(ow[0]) + le16(ow[1]) + le16(ow[2]) + le16(ow[3]) + le16(
                ow[4],
            ) + le16(ow[5]) + le16(ow[6]) + le16(ow[7]));
        }
    }

    /// Deliver up to `buf.len()` re-framed bytes into the front of `buf`.
    #[verifier::rlimit(80)]
    pub fn read(&mut self, buf: &mut Vec<u8>) -> (r: usize)
        requires
            old(self).wf(),
        ensures
            final(self).wf(),
            final(buf)@.len() == old(buf)@.len(),
            r <= old(buf)@.len(),
            r as int == if old(buf)@.len() as int <= old(self).pending_total().len() {
                old(buf)@.len() as int
            } else {
                old(self).pending_total().len() as int
            },
            final(buf)@.subrange(0, r as int) == old(self).pending_total().take(r as int),
            final(buf)@.skip(r as int) == old(buf)@.skip(r as int),
            final(self).history() == old(self).history() + final(buf)@.subrange(0, r as int),
            final(self).pending_total() == old(self).pending_total().skip(r as int),
            final(self).projected() == old(self).projected(),
    {
        if self.done || buf.len() == 0 {
            proof {
                if self.done {
                    assert(self.pending_out() =~= Seq::<u8>::empty());
                }
                assert(buf@.subrange(0, 0) =~= old(self).pending_total().take(0));
                assert(buf@.skip(0) =~= old(buf)@.skip(0));
                assert(self.history() =~= old(self).history() + buf@.subrange(0, 0));
                assert(self.pending_total() =~= old(self).pending_total().skip(0));
            }
            return 0;
        }
        let ghost pt0 = old(self).pending_total();
        let mut bytes_read: usize = 0;
        let bytes_to_read = buf.len();
        while !self.done && bytes_read < bytes_to_read
            invariant
                bytes_read <= bytes_to_read,
                bytes_to_read == buf@.len(),
                buf@.len() == old(buf)@.len(),
                self.wf(),
                bytes_read as int <= pt0.len(),
                self.pending_total() == pt0.skip(bytes_read as int),
                buf@.subrange(0, bytes_read as int) == pt0.take(bytes_read as int),
                buf@.skip(bytes_read as int) == old(buf)@.skip(bytes_read as int),
                self.history@ == old(self).history@ + buf@.subrange(0, bytes_read as int),
            decreases 2 * (bytes_to_read - bytes_read) + (if self.out_offset == self.out_len {
                1int
            } else {
                0int
            }) + (if self.done {
                0int
            } else {
                1int
            }),
        {
            if self.out_offset == self.out_len {
                // Load and process the next block.
                let ghost p_cur = self.source_pending();
                proof {
                    lemma_subrange_empty(self.out_buffer@, self.out_offset as int);
                    lemma_empty_add(fr32_stream(p_cur));
                    assert(self.pending_total() == fr32_stream(p_cur));
                }
                let n = self.fill_in_buffer();
                if n == 0 {
                    self.done = true;
                    proof {
                        assert(p_cur.len() == 0);
                        assert(fr32_stream(p_cur) == Seq::<u8>::empty());
                        lemma_subrange_empty(self.out_buffer@, self.out_offset as int);
                        lemma_add_empty(Seq::<u8>::empty());
                        assert(self.pending_total() == pt0.skip(bytes_read as int));
                    }
                } else {
                    self.process_block();
                    self.out_offset = 0;
                    let frs = div_ceil(8 * n, IN_BITS_FR);
                    proof {
                        assert(frs as int == (8 * n + 253) / 254);
                        assert(1 <= frs && frs <= 4);
                    }
                    self.out_len = 32 * frs;
                    proof {
                        let blk = self.in_buffer@.subrange(0, 127);
                        lemma_fr32_block_len(blk);
                        assert(self.out_buffer@ == fr32_block(blk));
                        if n == 127 {
                            lemma_stream_step_full(p_cur, self.in_buffer@);
                            assert(self.out_len == 128);
                            lemma_subrange_whole(self.out_buffer@);
                            assert(self.pending_out() == fr32_block(blk));
                            assert(self.source_pending() == p_cur.skip(127));
                            assert(self.pending_total() == pt0.skip(bytes_read as int));
                        } else {
                            assert(p_cur.len() == n);
                            lemma_stream_step_partial(p_cur, self.in_buffer@);
                            assert(self.pending_out() == fr32_block(blk).take(32 * fr_count(
                                p_cur.len(),
                            ) as int));
                            assert(self.source_pending().len() == 0);
                            assert(self.source_pending() =~= Seq::<u8>::empty());
                            assert(fr32_stream(self.source_pending()) == Seq::<u8>::empty());
                            lemma_add_empty(self.pending_out());
                            assert(self.pending_total() == pt0.skip(bytes_read as int));
                        }
                    }
                }
            } else {
                // Deliver as many processed bytes as fit.
                let avail = self.out_len - self.out_offset;
                let space = bytes_to_read - bytes_read;
                let len = if avail < space {
                    avail
                } else {
                    space
                };
                let ghost pt_cur = self.pending_total();
                let ghost buf_pre = buf@;
                let ghost off0 = self.out_offset as int;
                let ghost a = self.out_buffer@.subrange(off0, self.out_len as int);
                let ghost rest = fr32_stream(self.source_pending());
                copy_into(buf, bytes_read, &self.out_buffer, self.out_offset, len);
                self.out_offset = self.out_offset + len;
                self.history = Ghost(
                    self.history@ + buf@.subrange(bytes_read as int, bytes_read + len),
                );
                proof {
                    assert(pt_cur == a + rest);
                    assert(a.len() == self.out_len - off0);
                    assert(len as int <= a.len());
                    assert(pt_cur.len() == pt0.len() - bytes_read);
                    assert(bytes_read + len <= pt0.len());
                    assert forall|k: int| 0 <= k < bytes_read + len implies #[trigger] buf@[k]
                        == pt0[k] by {
                        if k < bytes_read {
                            assert(buf@[k] == buf_pre[k]);
                            assert(buf_pre.subrange(0, bytes_read as int)[k] == pt0.take(
                                bytes_read as int,
                            )[k]);
                        } else {
                            let j = k - bytes_read;
                            assert(buf@[k] == self.out_buffer@[j + off0]);
                            assert(a[j] == self.out_buffer@[off0 + j]);
                            assert(pt_cur[j] == a[j]);
                            assert(pt0.skip(bytes_read as int)[j] == pt0[k]);
                        }
                    }
                    assert(buf@.subrange(0, bytes_read + len) =~= pt0.take(bytes_read + len));
                    assert forall|k: int|
                        bytes_read + len <= k < buf@.len() implies #[trigger] buf@[k] == old(
                        buf,
                    )@[k] by {
                        assert(buf@[k] == buf_pre[k]);
                        assert(buf_pre.skip(bytes_read as int)[k - bytes_read] == old(buf)@.skip(
                            bytes_read as int,
                        )[k - bytes_read]);
                    }
                    assert(buf@.skip(bytes_read + len) =~= old(buf)@.skip(bytes_read + len));
                    lemma_subrange_skip(self.out_buffer@, off0, self.out_len as int, len as int);
                    lemma_add_skip(a, rest, len as int);
                    lemma_skip_skip(pt0, bytes_read as int, len as int);
                    assert(self.pending_out() == a.skip(len as int));
                    assert(self.pending_total() == pt_cur.skip(len as int));
                    assert(self.pending_total() == pt0.skip(bytes_read + len));
                    assert(self.history@ =~= old(self).history@ + buf@.subrange(
                        0,
                        bytes_read + len,
                    ));
                }
                bytes_read = bytes_read + len;
            }
        }
        proof {
            if self.done {
                lemma_subrange_empty(self.out_buffer@, self.out_offset as int);
                lemma_add_empty(Seq::<u8>::empty());
                assert(self.pending_total().len() == 0);
            }
            assert(self.projected() =~= old(self).projected());
        }
        bytes_read
    }
}

} // verus!
