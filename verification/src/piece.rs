//! Padded piece sizes.
//!
//! A padded piece size is at least 128 bytes, a power of two, and therefore
//! a multiple of 128. An arbitrary byte length `n` is first expanded to
//! `n + ceil(n / 127)` (one extra byte per 127 payload bytes, for the Fr32
//! re-framing) or to 128, whichever is larger, and then rounded up to the
//! next power of two.

use vstd::prelude::*;

verus! {

/// Byte lengths above this bound are rejected up front so that the size
/// arithmetic stays within `u64`.
pub const MAX_PIECE_INPUT: u64 = 0x4000_0000_0000_0000;

/// `ceil(n / 127)`: the number of extra bytes Fr32 re-framing adds.
pub open spec fn ceil127(n: nat) -> nat {
    ((n + 126) / 127) as nat
}

pub open spec fn is_pow2(n: nat) -> bool
    decreases n,
{
    if n == 0 {
        false
    } else if n == 1 {
        true
    } else {
        n % 2 == 0 && is_pow2(n / 2)
    }
}

/// The smallest power of two that is `>= x`, reached by doubling from `p`.
pub open spec fn next_pow2_ge(p: nat, x: nat) -> nat
    decreases (if p < x {
        x - p
    } else {
        0
    }),
{
    if p == 0 {
        0
    } else if p >= x {
        p
    } else {
        next_pow2_ge(2 * p, x)
    }
}

/// The padded piece size for a byte length `n`.
pub open spec fn padded_size_spec(n: nat) -> nat {
    next_pow2_ge(128, n + ceil127(n))
}

/// The unpadded counterpart of a padded size: 127/128 of it.
pub open spec fn unpadded_of(p: nat) -> nat {
    (p - p / 128) as nat
}

proof fn lemma_next_pow2_ge(p: nat, x: nat)
    requires
        p >= 1,
        is_pow2(p),
    ensures
        next_pow2_ge(p, x) >= p,
        next_pow2_ge(p, x) >= x,
        is_pow2(next_pow2_ge(p, x)),
        p % 128 == 0 ==> next_pow2_ge(p, x) % 128 == 0,
        p < x ==> next_pow2_ge(p, x) < 2 * x,
    decreases (if p < x {
        x - p
    } else {
        0
    }),
{
    if p >= x {
    } else {
        assert(is_pow2(2 * p)) by {
            assert((2 * p) % 2 == 0);
            assert((2 * p) / 2 == p);
        }
        lemma_next_pow2_ge(2 * p, x);
    }
}

/// Law: for every byte length `n >= 1` that fits the input bound, the
/// padded piece size is at least 128, a power of two, a multiple of 128,
/// and at least `n + ceil(n / 127)`.
pub proof fn lemma_padded_size_bounds(n: nat)
    requires
        n >= 1,
    ensures
        padded_size_spec(n) >= 128,
        padded_size_spec(n) >= n + ceil127(n),
        is_pow2(padded_size_spec(n)),
        padded_size_spec(n) % 128 == 0,
        padded_size_spec(n) <= 128 || padded_size_spec(n) < 4 * n,
{
    assert(ceil127(n) <= n) by (nonlinear_arith)
        requires
            n >= 1,
    ;
    assert(is_pow2(128nat)) by {
        reveal_with_fuel(is_pow2, 9);
    }
    lemma_next_pow2_ge(128, n + ceil127(n));
}

/// A piece size that is at least 128 bytes and a power of two.
#[derive(Clone, Copy)]
pub struct PaddedPieceSize {
    size: u64,
}

impl PaddedPieceSize {
    pub closed spec fn size(&self) -> u64 {
        self.size
    }

    pub open spec fn wf(&self) -> bool {
        &&& self.size() >= 128
        &&& is_pow2(self.size() as nat)
        &&& self.size() as nat % 128 == 0
    }

    /// The padded size, as a number of bytes.
    pub fn get(&self) -> (r: u64)
        ensures
            r == self.size(),
    {
        self.size
    }

    /// Expand an arbitrary byte length to its padded piece size.
    pub fn from_arbitrary_size(n: u64) -> (r: Self)
        requires
            n <= MAX_PIECE_INPUT,
        ensures
            r.wf(),
            r.size() as nat == padded_size_spec(n as nat),
    {
        let target: u64 = n + (n + 126) / 127;
        assert(target as nat == n as nat + ceil127(n as nat));
        let mut p: u64 = 128;
        proof {
            assert(is_pow2(128nat)) by {
        reveal_with_fuel(is_pow2, 9);
    }
        }
        while p < target
            invariant
                128 <= p,
                is_pow2(p as nat),
                p as nat % 128 == 0,
                target <= 0x8000_0000_0000_0000,
                p < target ==> p < 0x8000_0000_0000_0000,
                next_pow2_ge(p as nat, target as nat) == padded_size_spec(n as nat),
            decreases (if p < target {
                target - p
            } else {
                0
            }),
        {
            proof {
                assert(is_pow2(2 * p as nat)) by {
                    assert((2 * p as nat) % 2 == 0);
                    assert((2 * p as nat) / 2 == p as nat);
                }
            }
            p = p * 2;
        }
        PaddedPieceSize { size: p }
    }

    /// The unpadded counterpart: the number of raw payload bytes that fill
    /// this padded size once Fr32 re-framing expands them.
    pub fn unpadded(&self) -> (r: u64)
        requires
            self.wf(),
        ensures
            r as nat == unpadded_of(self.size() as nat),
            r == self.size() - self.size() / 128,
    {
        self.size - self.size / 128
    }
}

} // verus!
