//! Small verified helpers for moving bytes between buffers.

use vstd::prelude::*;

verus! {

/// Copy `len` bytes from `src[src_start..]` into `dst[dst_start..]`,
/// leaving every other byte of `dst` unchanged.
pub fn copy_into(dst: &mut Vec<u8>, dst_start: usize, src: &Vec<u8>, src_start: usize, len: usize)
    requires
        dst_start + len <= old(dst)@.len(),
        src_start + len <= src@.len(),
    ensures
        final(dst)@.len() == old(dst)@.len(),
        final(dst)@.subrange(dst_start as int, dst_start + len) == src@.subrange(
            src_start as int,
            src_start + len,
        ),
        forall|j: int|
            dst_start <= j < dst_start + len ==> #[trigger] final(dst)@[j] == src@[j - dst_start
                + src_start],
        forall|j: int|
            0 <= j < old(dst)@.len() && !(dst_start <= j < dst_start + len) ==> final(dst)@[j]
                == old(dst)@[j],
{
    proof {
        assert(dst@.len() == dst.len());
        assert(src@.len() == src.len());
    }
    let mut i: usize = 0;
    while i < len
        invariant
            i <= len,
            dst_start + len <= dst@.len(),
            src_start + len <= src@.len(),
            dst@.len() <= usize::MAX,
            src@.len() <= usize::MAX,
            dst@.len() == old(dst)@.len(),
            forall|j: int|
                dst_start <= j < dst_start + i ==> #[trigger] dst@[j] == src@[j - dst_start
                    + src_start],
            forall|j: int|
                0 <= j < dst@.len() && !(dst_start <= j < dst_start + i) ==> dst@[j] == old(
                    dst,
                )@[j],
        decreases len - i,
    {
        let b = src[src_start + i];
        dst[dst_start + i] = b;
        i = i + 1;
    }
    proof {
        assert(dst@.subrange(dst_start as int, dst_start + len) =~= src@.subrange(
            src_start as int,
            src_start + len,
        ));
    }
}

/// A subrange over the whole length is the sequence itself.
pub proof fn lemma_subrange_whole(s: Seq<u8>)
    ensures
        s.subrange(0, s.len() as int) == s,
{
    assert(s.subrange(0, s.len() as int) =~= s);
}

/// An empty subrange is the empty sequence.
pub proof fn lemma_subrange_empty(s: Seq<u8>, a: int)
    requires
        0 <= a <= s.len(),
    ensures
        s.subrange(a, a) == Seq::<u8>::empty(),
{
    assert(s.subrange(a, a) =~= Seq::<u8>::empty());
}

/// The empty sequence is a left identity of append.
pub proof fn lemma_empty_add(s: Seq<u8>)
    ensures
        Seq::<u8>::empty() + s == s,
{
    assert(Seq::<u8>::empty() + s =~= s);
}

/// The empty sequence is a right identity of append.
pub proof fn lemma_add_empty(s: Seq<u8>)
    ensures
        s + Seq::<u8>::empty() == s,
{
    assert(s + Seq::<u8>::empty() =~= s);
}

/// Taking after dropping selects a subrange.
pub proof fn lemma_skip_take(s: Seq<u8>, a: int, n: int)
    requires
        0 <= a,
        0 <= n,
        a + n <= s.len(),
    ensures
        s.skip(a).take(n) == s.subrange(a, a + n),
{
    assert(s.skip(a).take(n) =~= s.subrange(a, a + n));
}

/// Appending distributes over dropping a prefix of the first part.
pub proof fn lemma_add_skip(a: Seq<u8>, b: Seq<u8>, n: int)
    requires
        0 <= n <= a.len(),
    ensures
        (a + b).skip(n) == a.skip(n) + b,
{
    assert((a + b).skip(n) =~= a.skip(n) + b);
}

/// Dropping `m` then `n` elements is dropping `m + n` elements.
pub proof fn lemma_skip_skip(s: Seq<u8>, m: int, n: int)
    requires
        0 <= m,
        0 <= n,
        m + n <= s.len(),
    ensures
        s.skip(m).skip(n) == s.skip(m + n),
{
    assert(s.skip(m).skip(n) =~= s.skip(m + n));
}

/// Dropping a prefix of a subrange narrows the subrange.
pub proof fn lemma_subrange_skip(s: Seq<u8>, a: int, b: int, n: int)
    requires
        0 <= a <= b <= s.len(),
        0 <= n <= b - a,
    ensures
        s.subrange(a, b).skip(n) == s.subrange(a + n, b),
{
    assert(s.subrange(a, b).skip(n) =~= s.subrange(a + n, b));
}

/// Overwrite `dst[start..start + len]` with zero bytes, leaving every other
/// byte of `dst` unchanged.
pub fn fill_zero(dst: &mut Vec<u8>, start: usize, len: usize)
    requires
        start + len <= old(dst)@.len(),
    ensures
        final(dst)@.len() == old(dst)@.len(),
        forall|j: int| start <= j < start + len ==> final(dst)@[j] == 0u8,
        forall|j: int|
            0 <= j < old(dst)@.len() && !(start <= j < start + len) ==> final(dst)@[j] == old(
                dst,
            )@[j],
{
    proof {
        assert(dst@.len() == dst.len());
    }
    let mut i: usize = 0;
    while i < len
        invariant
            i <= len,
            start + len <= dst@.len(),
            dst@.len() <= usize::MAX,
            dst@.len() == old(dst)@.len(),
            forall|j: int| start <= j < start + i ==> dst@[j] == 0u8,
            forall|j: int|
                0 <= j < dst@.len() && !(start <= j < start + i) ==> dst@[j] == old(dst)@[j],
        decreases len - i,
    {
        dst[start + i] = 0u8;
        i = i + 1;
    }
}

} // verus!
