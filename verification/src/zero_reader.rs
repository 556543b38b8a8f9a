//! Byte sources and the zero-padding reader.
//!
//! `ChunkSource` is the crate's model of a byte stream that may serve short
//! reads: it hands out its bytes in pre-arranged chunks, never more than one
//! chunk per call. A cursor over a single buffer is the one-chunk case.
//!
//! `ZeroPaddingReader` wraps a source and delivers exactly `total_size`
//! bytes: the source's bytes while they last, then zero bytes.

use vstd::prelude::*;

use crate::bytes::copy_into;
use crate::bytes::fill_zero;

verus! {

/// How many bytes one read of a zero-padding reader delivers: the request
/// clamped to the quota and, while the inner source still has bytes, to
/// what one inner read serves.
pub open spec fn spec_read_len(buf_len: int, quota: int, avail: int) -> int {
    if quota == 0 || buf_len == 0 {
        0
    } else {
        let want = if buf_len <= quota {
            buf_len
        } else {
            quota
        };
        if 0 < avail && avail < want {
            avail
        } else {
            want
        }
    }
}

/// A sequence of `n` zero bytes.
pub open spec fn zeros(n: nat) -> Seq<u8> {
    Seq::new(n, |i: int| 0u8)
}

/// `s` truncated or extended with zero bytes to exactly `n` bytes.
pub open spec fn padded_to(s: Seq<u8>, n: nat) -> Seq<u8> {
    if s.len() >= n {
        s.take(n as int)
    } else {
        s + zeros((n - s.len()) as nat)
    }
}

pub proof fn lemma_padded_to_len(s: Seq<u8>, n: nat)
    ensures
        padded_to(s, n).len() == n,
{
}

/// Splitting a padded stream: taking `n` bytes off the front of the source
/// commutes with padding, as long as the source still has `n` bytes.
pub proof fn lemma_padded_to_split(s: Seq<u8>, q: nat, n: nat)
    requires
        n <= s.len(),
        n <= q,
    ensures
        padded_to(s, q) == s.take(n as int) + padded_to(s.skip(n as int), (q - n) as nat),
{
    assert(padded_to(s, q) =~= s.take(n as int) + padded_to(s.skip(n as int), (q - n) as nat));
}

/// The bytes of `chunks[i..]`, concatenated.
pub open spec fn flatten_from(chunks: Seq<Seq<u8>>, i: int) -> Seq<u8>
    decreases chunks.len() - i,
{
    if i < 0 || i >= chunks.len() {
        Seq::<u8>::empty()
    } else {
        chunks[i] + flatten_from(chunks, i + 1)
    }
}

/// How many bytes the next read of a chunk source can serve: the remainder
/// of the first non-exhausted chunk at or after position `(i, pos)`.
pub open spec fn avail_from(chunks: Seq<Seq<u8>>, i: int, pos: int) -> int
    decreases chunks.len() - i,
{
    if i < 0 || i >= chunks.len() {
        0
    } else if pos < chunks[i].len() {
        chunks[i].len() - pos
    } else {
        avail_from(chunks, i + 1, 0)
    }
}

/// The element-wise view of a vector of byte vectors.
pub open spec fn deep(chunks: Seq<Vec<u8>>) -> Seq<Seq<u8>> {
    chunks.map_values(|c: Vec<u8>| c@)
}

/// The nonempty chunk remainders of `chunks[i..]` from offset `pos`, in
/// serving order.
pub open spec fn nonempty_from(chunks: Seq<Seq<u8>>, i: int, pos: int) -> Seq<Seq<u8>>
    decreases chunks.len() - i,
{
    if i < 0 || i >= chunks.len() {
        Seq::<Seq<u8>>::empty()
    } else {
        let head = chunks[i].skip(pos);
        if head.len() > 0 {
            seq![head] + nonempty_from(chunks, i + 1, 0)
        } else {
            nonempty_from(chunks, i + 1, 0)
        }
    }
}

/// The chunk remainders after one read served `n` bytes of the first:
/// the head shortened by `n`, or dropped when `n` consumed it whole.
pub open spec fn chunks_after_read(cs: Seq<Seq<u8>>, n: int) -> Seq<Seq<u8>> {
    if n <= 0 || cs.len() == 0 {
        cs
    } else if n < cs[0].len() {
        seq![cs[0].skip(n)] + cs.drop_first()
    } else {
        cs.drop_first()
    }
}

/// An in-memory byte source that serves its bytes in pre-arranged chunks.
///
/// Each read call serves from a single chunk, so a read may be short even
/// while more bytes follow; only an exhausted source serves zero bytes.
pub struct ChunkSource {
    chunks: Vec<Vec<u8>>,
    /// Index of the chunk the next read serves from.
    next: usize,
    /// Offset into that chunk.
    pos: usize,
}

impl ChunkSource {
    /// The bytes this source has not yet served, in order.
    pub closed spec fn remaining(&self) -> Seq<u8> {
        let cs = deep(self.chunks@);
        if self.next >= cs.len() {
            Seq::<u8>::empty()
        } else {
            cs[self.next as int].skip(self.pos as int) + flatten_from(cs, self.next as int + 1)
        }
    }

    /// How many bytes the next read can serve, given a large enough buffer.
    pub closed spec fn avail(&self) -> int {
        avail_from(deep(self.chunks@), self.next as int, self.pos as int)
    }

    /// The nonempty chunk remainders this source will serve, in order.
    /// Each read serves a prefix of the first of them.
    pub closed spec fn rest_chunks(&self) -> Seq<Seq<u8>> {
        nonempty_from(deep(self.chunks@), self.next as int, self.pos as int)
    }

    pub closed spec fn wf(&self) -> bool {
        &&& self.next <= self.chunks@.len()
        &&& (self.next < self.chunks@.len() ==> self.pos <= self.chunks@[self.next as int]@.len())
        &&& (self.next == self.chunks@.len() ==> self.pos == 0)
    }

    pub fn new(chunks: Vec<Vec<u8>>) -> (r: Self)
        ensures
            r.wf(),
            r.remaining() == flatten_from(deep(chunks@), 0),
            r.avail() == avail_from(deep(chunks@), 0, 0),
            r.rest_chunks() == nonempty_from(deep(chunks@), 0, 0),
    {
        let r = ChunkSource { chunks, next: 0, pos: 0 };
        proof {
            let cs = deep(r.chunks@);
            if cs.len() > 0 {
                assert(cs[0].skip(0) =~= cs[0]);
                assert(r.remaining() =~= flatten_from(cs, 0));
            }
        }
        r
    }

    /// A cursor: a source with all its bytes in one chunk.
    pub fn from_bytes(data: Vec<u8>) -> (r: Self)
        ensures
            r.wf(),
            r.remaining() == data@,
            r.avail() == data@.len(),
            r.rest_chunks() == (if data@.len() == 0 {
                Seq::<Seq<u8>>::empty()
            } else {
                seq![data@]
            }),
    {
        let ghost d = data@;
        let mut chunks: Vec<Vec<u8>> = Vec::new();
        chunks.push(data);
        let r = Self::new(chunks);
        proof {
            assert(deep(chunks@)[0] == d);
            assert(flatten_from(deep(chunks@), 1) =~= Seq::<u8>::empty());
            assert(r.remaining() =~= d);
            assert(nonempty_from(deep(chunks@), 1, 0) =~= Seq::<Seq<u8>>::empty());
            if d.len() > 0 {
                assert(r.avail() == d.len());
                assert(d.skip(0) =~= d);
                assert(r.rest_chunks() =~= seq![d]);
            } else {
                assert(r.avail() == avail_from(deep(chunks@), 1, 0));
                assert(r.rest_chunks() =~= Seq::<Seq<u8>>::empty());
            }
        }
        r
    }

    proof fn lemma_avail_head_rec(chunks: Seq<Seq<u8>>, i: int, pos: int)
        requires
            0 <= i <= chunks.len(),
            i < chunks.len() ==> 0 <= pos <= chunks[i].len(),
            i == chunks.len() ==> pos == 0,
        ensures
            avail_from(chunks, i, pos) == (if nonempty_from(chunks, i, pos).len() == 0 {
                0
            } else {
                nonempty_from(chunks, i, pos)[0].len() as int
            }),
        decreases chunks.len() - i,
    {
        if i < chunks.len() {
            if pos < chunks[i].len() {
                assert(chunks[i].skip(pos).len() == chunks[i].len() - pos);
            } else {
                assert(chunks[i].skip(pos).len() == 0);
                Self::lemma_avail_head_rec(chunks, i + 1, 0);
            }
        }
    }

    /// Law: the capacity of the next read is the length of the first
    /// remaining chunk, and zero exactly when the source is exhausted.
    pub proof fn lemma_avail_is_first(&self)
        requires
            self.wf(),
        ensures
            self.avail() == (if self.rest_chunks().len() == 0 {
                0
            } else {
                self.rest_chunks()[0].len() as int
            }),
    {
        Self::lemma_avail_head_rec(deep(self.chunks@), self.next as int, self.pos as int);
    }

    proof fn lemma_avail_le_remaining(chunks: Seq<Seq<u8>>, i: int, pos: int)
        requires
            0 <= i <= chunks.len(),
            i < chunks.len() ==> 0 <= pos <= chunks[i].len(),
            i == chunks.len() ==> pos == 0,
        ensures
            avail_from(chunks, i, pos) == 0 ==> (if i >= chunks.len() {
                Seq::<u8>::empty()
            } else {
                chunks[i].skip(pos) + flatten_from(chunks, i + 1)
            }).len() == 0,
            avail_from(chunks, i, pos) <= (if i >= chunks.len() {
                Seq::<u8>::empty()
            } else {
                chunks[i].skip(pos) + flatten_from(chunks, i + 1)
            }).len(),
        decreases chunks.len() - i,
    {
        if i < chunks.len() {
            if pos < chunks[i].len() {
            } else {
                assert(chunks[i].skip(pos) =~= Seq::<u8>::empty());
                Self::lemma_avail_le_remaining(chunks, i + 1, 0);
                if i + 1 < chunks.len() {
                    assert(chunks[i + 1].skip(0) =~= chunks[i + 1]);
                    assert(chunks[i].skip(pos) + flatten_from(chunks, i + 1) =~= chunks[i + 1].skip(
                        0,
                    ) + flatten_from(chunks, i + 2));
                } else {
                    assert(flatten_from(chunks, i + 1) =~= Seq::<u8>::empty());
                }
            }
        }
    }

    /// Serve up to `buf.len()` bytes from the current chunk into the front
    /// of `buf`, leaving the rest of `buf` unchanged.
    pub fn read(&mut self, buf: &mut Vec<u8>) -> (r: usize)
        requires
            old(self).wf(),
        ensures
            final(self).wf(),
            final(buf)@.len() == old(buf)@.len(),
            r <= old(buf)@.len(),
            r as int <= old(self).remaining().len(),
            r as int == if old(buf)@.len() as int <= old(self).avail() {
                old(buf)@.len() as int
            } else {
                old(self).avail()
            },
            final(buf)@.subrange(0, r as int) == old(self).remaining().take(r as int),
            final(buf)@.skip(r as int) == old(buf)@.skip(r as int),
            final(self).remaining() == old(self).remaining().skip(r as int),
            final(self).rest_chunks() == chunks_after_read(old(self).rest_chunks(), r as int),
            (r == 0) <==> (old(self).remaining().len() == 0 || old(buf)@.len() == 0),
    {
        proof {
            Self::lemma_avail_le_remaining(deep(self.chunks@), self.next as int, self.pos as int);
        }
        // Step over exhausted chunks (including empty ones).
        while self.next < self.chunks.len() && self.pos == self.chunks[self.next].len()
            invariant
                self.wf(),
                self.chunks@ == old(self).chunks@,
                self.remaining() == old(self).remaining(),
                self.avail() == old(self).avail(),
                self.rest_chunks() == old(self).rest_chunks(),
            decreases self.chunks@.len() - self.next,
        {
            let ghost prev = *self;
            self.next = self.next + 1;
            self.pos = 0;
            proof {
                let cs = deep(self.chunks@);
                assert(cs[prev.next as int].skip(prev.pos as int) =~= Seq::<u8>::empty());
                assert(cs[prev.next as int].skip(prev.pos as int).len() == 0);
                assert(self.rest_chunks() == prev.rest_chunks());
                if self.next < cs.len() {
                    assert(cs[self.next as int].skip(0) =~= cs[self.next as int]);
                    assert(self.remaining() =~= prev.remaining());
                } else {
                    assert(flatten_from(cs, self.next as int) =~= Seq::<u8>::empty());
                    assert(self.remaining() =~= prev.remaining());
                }
            }
        }
        if self.next == self.chunks.len() {
            proof {
                Self::lemma_avail_le_remaining(
                    deep(self.chunks@),
                    self.next as int,
                    self.pos as int,
                );
                assert(self.remaining().len() == 0);
                assert(buf@.subrange(0, 0) =~= old(self).remaining().take(0));
                assert(buf@.skip(0) =~= old(buf)@.skip(0));
                assert(self.remaining() =~= old(self).remaining().skip(0));
                assert(self.rest_chunks() == chunks_after_read(old(self).rest_chunks(), 0));
            }
            return 0;
        }
        let ghost s0 = *self;
        let ghost cs = deep(self.chunks@);
        proof {
            assert(self.pos < self.chunks@[self.next as int]@.len());
            assert(self.avail() == self.chunks@[self.next as int]@.len() - self.pos);
            Self::lemma_avail_le_remaining(cs, self.next as int, self.pos as int);
        }
        let chunk_rem: usize = self.chunks[self.next].len() - self.pos;
        let n: usize = if buf.len() < chunk_rem {
            buf.len()
        } else {
            chunk_rem
        };
        copy_into(buf, 0, &self.chunks[self.next], self.pos, n);
        self.pos = self.pos + n;
        proof {
            assert(self.chunks@ == s0.chunks@);
            let rest0 = s0.rest_chunks();
            let head = cs[s0.next as int].skip(s0.pos as int);
            assert(head.len() == chunk_rem);
            assert(rest0 == seq![head] + nonempty_from(cs, s0.next as int + 1, 0));
            assert(rest0.drop_first() =~= nonempty_from(cs, s0.next as int + 1, 0));
            assert(rest0[0] == head);
            if n == 0 {
                assert(self.rest_chunks() == chunks_after_read(rest0, 0));
            } else if (n as int) < chunk_rem {
                crate::bytes::lemma_skip_skip(
                    cs[s0.next as int],
                    s0.pos as int,
                    n as int,
                );
                assert(head.skip(n as int) == cs[s0.next as int].skip(s0.pos + n));
                assert(head.skip(n as int).len() > 0);
                assert(self.rest_chunks() == seq![cs[s0.next as int].skip(s0.pos + n)]
                    + nonempty_from(cs, s0.next as int + 1, 0));
                assert(self.rest_chunks() == chunks_after_read(rest0, n as int));
            } else {
                assert(cs[s0.next as int].skip(s0.pos + n).len() == 0);
                assert(self.rest_chunks() == nonempty_from(cs, s0.next as int + 1, 0));
                assert(self.rest_chunks() == chunks_after_read(rest0, n as int));
            }
            let rem0 = s0.remaining();
            assert forall|k: int| 0 <= k < n implies buf@[k] == rem0[k] by {
                assert(buf@.subrange(0, n as int)[k] == cs[s0.next as int].subrange(
                    s0.pos as int,
                    s0.pos + n,
                )[k]);
                assert(rem0[k] == cs[s0.next as int].skip(s0.pos as int)[k]);
            }
            assert(buf@.subrange(0, n as int) =~= rem0.take(n as int));
            assert(buf@.skip(n as int) =~= old(buf)@.skip(n as int));
            assert(self.remaining() =~= rem0.skip(n as int));
        }
        n
    }
}

/// A reader that delivers exactly `total_size` bytes: the inner source's
/// bytes while they last, then zero bytes. A short inner read is not
/// end-of-input; only a zero-length inner read starts the zero padding.
pub struct ZeroPaddingReader {
    /// The inner source to read from.
    inner: ChunkSource,
    /// The number of bytes this reader has left to produce.
    remaining: u64,
    /// The bytes delivered so far.
    history: Ghost<Seq<u8>>,
}

impl ZeroPaddingReader {
    /// The bytes this reader has delivered so far.
    pub closed spec fn history(&self) -> Seq<u8> {
        self.history@
    }

    /// The number of bytes this reader still owes.
    pub closed spec fn quota(&self) -> nat {
        self.remaining as nat
    }

    /// How many bytes the inner source can serve in one read.
    pub closed spec fn source_avail(&self) -> int {
        self.inner.avail()
    }

    /// The nonempty chunk remainders of the inner source, in serving
    /// order. Each read that reaches the source consumes a prefix of the
    /// first of them.
    pub closed spec fn source_chunks(&self) -> Seq<Seq<u8>> {
        self.inner.rest_chunks()
    }

    /// Law: the capacity of one inner read is the length of the first
    /// remaining source chunk, and zero exactly when the source is
    /// exhausted.
    pub proof fn lemma_source_avail_is_first(&self)
        requires
            self.wf(),
        ensures
            self.source_avail() == (if self.source_chunks().len() == 0 {
                0
            } else {
                self.source_chunks()[0].len() as int
            }),
    {
        self.inner.lemma_avail_is_first();
    }

    /// The bytes this reader still owes: the inner source's remaining bytes
    /// cut or zero-extended to the remaining quota.
    pub closed spec fn pending(&self) -> Seq<u8> {
        padded_to(self.inner.remaining(), self.quota())
    }

    /// Everything this reader will ever deliver: what it has delivered,
    /// followed by what it still owes. Reads leave this stream unchanged.
    pub open spec fn projected(&self) -> Seq<u8> {
        self.history() + self.pending()
    }

    pub proof fn lemma_pending_len(&self)
        ensures
            self.pending().len() == self.quota(),
    {
        lemma_padded_to_len(self.inner.remaining(), self.quota());
    }

    pub closed spec fn wf(&self) -> bool {
        self.inner.wf()
    }

    pub fn new(inner: ChunkSource, total_size: u64) -> (r: Self)
        requires
            inner.wf(),
        ensures
            r.wf(),
            r.history() == Seq::<u8>::empty(),
            r.quota() == total_size,
            r.source_avail() == inner.avail(),
            r.source_chunks() == inner.rest_chunks(),
            r.pending() == padded_to(inner.remaining(), total_size as nat),
    {
        let r = ZeroPaddingReader { inner, remaining: total_size, history: Ghost(Seq::empty()) };
        proof {
            assert(r.projected() =~= padded_to(r.inner.remaining(), total_size as nat));
        }
        r
    }

    /// Deliver up to `buf.len()` bytes into the front of `buf`.
    pub fn read(&mut self, buf: &mut Vec<u8>) -> (r: usize)
        requires
            old(self).wf(),
        ensures
            final(self).wf(),
            final(buf)@.len() == old(buf)@.len(),
            r <= old(buf)@.len(),
            r as nat <= old(self).quota(),
            final(self).quota() == old(self).quota() - r as nat,
            old(self).pending().len() == old(self).quota(),
            final(self).history() == old(self).history() + final(buf)@.subrange(0, r as int),
            final(buf)@.subrange(0, r as int) == old(self).pending().take(r as int),
            final(self).pending() == old(self).pending().skip(r as int),
            final(buf)@.skip(r as int) == old(buf)@.skip(r as int),
            final(self).projected() == old(self).projected(),
            (r == 0) <==> (old(self).quota() == 0 || old(buf)@.len() == 0),
            r as int == spec_read_len(old(buf)@.len() as int, old(self).quota() as int, old(self).source_avail()),
            final(self).source_chunks() == chunks_after_read(
                old(self).source_chunks(),
                if old(self).quota() > 0 && old(buf)@.len() > 0 && old(self).source_avail() > 0 {
                    r as int
                } else {
                    0
                },
            ),
    {
        proof {
            self.lemma_pending_len();
        }
        if self.remaining == 0 {
            proof {
                assert(self.history() =~= old(self).history() + buf@.subrange(0, 0));
                assert(buf@.subrange(0, 0) =~= old(self).pending().take(0));
                assert(self.pending() =~= old(self).pending().skip(0));
                assert(buf@.skip(0) =~= old(buf)@.skip(0));
                assert(self.source_chunks() == chunks_after_read(old(self).source_chunks(), 0));
            }
            return 0;
        }
        // Number of bytes that the reader will produce in this call.
        let to_read: usize = if (buf.len() as u64) < self.remaining {
            buf.len()
        } else {
            self.remaining as usize
        };
        let mut tmp: Vec<u8> = vec![0u8; to_read];
        let ghost inner0 = self.inner.remaining();
        // Number of bytes that we read from the inner source.
        let n = self.inner.read(&mut tmp);

        if n > 0 {
            // An incomplete read does not mean padding starts yet: the next
            // call may serve more.
            copy_into(buf, 0, &tmp, 0, n);
            self.remaining = self.remaining - n as u64;
            self.history = Ghost(self.history@ + buf@.subrange(0, n as int));
            proof {
                assert forall|k: int| 0 <= k < n implies buf@[k] == inner0[k] by {
                    assert(buf@.subrange(0, n as int)[k] == tmp@.subrange(0, n as int)[k]);
                    assert(tmp@.subrange(0, n as int)[k] == inner0.take(n as int)[k]);
                }
                assert(buf@.subrange(0, n as int) =~= inner0.take(n as int));
                assert(buf@.skip(n as int) =~= old(buf)@.skip(n as int));
                lemma_padded_to_split(inner0, old(self).quota(), n as nat);
                assert(buf@.subrange(0, n as int) =~= old(self).pending().take(n as int));
                assert(self.pending() =~= old(self).pending().skip(n as int));
                assert(self.projected() =~= old(self).projected());
            }
            return n;
        }
        // The inner source is exhausted (or the request was empty): deliver
        // zero bytes for the rest of this call.
        fill_zero(buf, 0, to_read);
        self.remaining = self.remaining - to_read as u64;
        self.history = Ghost(self.history@ + buf@.subrange(0, to_read as int));
        proof {
            assert(inner0.len() == 0 || to_read == 0);
            assert(buf@.subrange(0, to_read as int) =~= zeros(to_read as nat));
            assert(buf@.skip(to_read as int) =~= old(buf)@.skip(to_read as int));
            assert(self.inner.remaining() =~= inner0);
            if to_read > 0 {
                assert(padded_to(inner0, old(self).quota()) =~= zeros(old(self).quota()));
                assert(padded_to(self.inner.remaining(), self.quota()) =~= zeros(self.quota()));
                assert(buf@.subrange(0, to_read as int) =~= old(self).pending().take(
                    to_read as int,
                ));
                assert(self.pending() =~= old(self).pending().skip(to_read as int));
                assert(self.projected() =~= old(self).projected());
            } else {
                assert(buf@.subrange(0, 0) =~= old(self).pending().take(0));
                assert(self.pending() =~= old(self).pending().skip(0));
                assert(self.projected() =~= old(self).projected());
            }
        }
        to_read
    }
}

/// Law: the bytes a zero-padding reader will deliver over its lifetime are
/// fixed at construction and number exactly its quota plus what it has
/// already delivered; once the quota is reached, the reader has delivered
/// that whole stream, and every further read returns zero bytes.
pub proof fn lemma_zero_padding_delivers_total(zp: ZeroPaddingReader)
    ensures
        zp.projected().len() == zp.history().len() + zp.quota(),
        zp.quota() == 0 ==> zp.history() == zp.projected(),
{
    lemma_padded_to_len(zp.inner.remaining(), zp.quota());
    if zp.quota() == 0 {
        assert(zp.history() =~= zp.projected());
    }
}

} // verus!
