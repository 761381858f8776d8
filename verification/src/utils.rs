//! Position arithmetic of the accumulator.
//!
//! An accumulator over `n` leaves occupies `2*n - popcount(n)` positions, and
//! the leaf with index `i` sits exactly at the position count the structure
//! had before that leaf was pushed.

use vstd::prelude::*;

use crate::encoding::{header_bytes, header_bytes_spec, leaf_bytes, leaf_bytes_spec};
use crate::hashing::{blake2_256, blake2_of};
use crate::traits::Hashable;
use crate::types::{LeafData, TestHeader};

verus! {

/// How many leaves an accumulator may hold: keeps every position under
/// `u64::MAX` with room to spare.
pub const MAX_LEAVES: u64 = 0x4000_0000_0000_0000;

/// The number of one bits of `n`.
pub open spec fn popcount(n: nat) -> nat
    decreases n,
{
    if n == 0 {
        0
    } else {
        popcount(n / 2) + (n % 2)
    }
}

/// The number of trailing one bits of `n`.
pub open spec fn t_ones(n: nat) -> nat
    decreases n,
{
    if n % 2 == 1 {
        1 + t_ones(n / 2)
    } else {
        0
    }
}

/// Total positions occupied by an accumulator with `n` leaves.
pub open spec fn mmr_size_spec(n: nat) -> int {
    2 * n - popcount(n)
}

/// The position assigned to leaf index `i`: every node present before the
/// leaf was pushed sits below it.
pub open spec fn leaf_pos_spec(i: nat) -> int {
    mmr_size_spec(i)
}

/// Whether `p` is a power of two.
pub open spec fn is_pow2(p: nat) -> bool
    decreases p,
{
    if p == 0 {
        false
    } else if p == 1 {
        true
    } else {
        p % 2 == 0 && is_pow2(p / 2)
    }
}

/// The greatest power of two that is at most `n` (for `n >= 1`).
pub open spec fn hi_pow2(n: nat) -> nat
    decreases n,
{
    if n < 2 {
        1
    } else {
        2 * hi_pow2(n / 2)
    }
}

pub proof fn lemma_popcount_le(n: nat)
    ensures
        popcount(n) <= n,
    decreases n,
{
    if n > 0 {
        lemma_popcount_le(n / 2);
    }
}

/// One more leaf turns the trailing ones into zeros and sets one new bit.
pub proof fn lemma_popcount_succ(n: nat)
    ensures
        popcount(n + 1) + t_ones(n) == popcount(n) + 1,
    decreases n,
{
    if n % 2 == 0 {
        assert((n + 1) / 2 == n / 2);
        assert(popcount(n + 1) == popcount(n / 2) + 1);
    } else {
        let m = n / 2;
        lemma_popcount_succ(m);
        assert(n == 2 * m + 1);
        assert((n + 1) / 2 == m + 1);
        assert((n + 1) % 2 == 0);
        assert(popcount(n + 1) == popcount(m + 1));
        assert(popcount(n) == popcount(m) + 1);
        assert(t_ones(n) == 1 + t_ones(m));
    }
}

/// Pushing one leaf appends the leaf and one merge node per trailing one.
pub proof fn lemma_mmr_size_succ(n: nat)
    ensures
        mmr_size_spec(n + 1) == mmr_size_spec(n) + 1 + t_ones(n),
{
    lemma_popcount_succ(n);
}

pub proof fn lemma_mmr_size_mono(a: nat, b: nat)
    requires
        a <= b,
    ensures
        mmr_size_spec(a) <= mmr_size_spec(b),
        a < b ==> mmr_size_spec(a) < mmr_size_spec(b),
    decreases b - a,
{
    if a < b {
        lemma_mmr_size_succ((b - 1) as nat);
        lemma_mmr_size_mono(a, (b - 1) as nat);
    }
}

pub proof fn lemma_mmr_size_ge(n: nat)
    ensures
        n <= mmr_size_spec(n) <= 2 * n,
{
    lemma_popcount_le(n);
}

pub proof fn lemma_popcount_pos(n: nat)
    requires
        n > 0,
    ensures
        popcount(n) >= 1,
    decreases n,
{
    if n >= 2 && n % 2 == 0 {
        lemma_popcount_pos(n / 2);
    }
}

pub proof fn lemma_is_pow2_pos(p: nat)
    requires
        is_pow2(p),
    ensures
        p >= 1,
    decreases p,
{
}

pub proof fn lemma_hi_pow2(n: nat)
    requires
        n >= 1,
    ensures
        is_pow2(hi_pow2(n)),
        hi_pow2(n) <= n,
        n < 2 * hi_pow2(n),
    decreases n,
{
    if n >= 2 {
        lemma_hi_pow2(n / 2);
    }
}

/// A power of two fitting `p <= n < 2p` is exactly `hi_pow2(n)`.
pub proof fn lemma_hi_pow2_unique(n: nat, p: nat)
    requires
        is_pow2(p),
        p <= n,
        n < 2 * p,
    ensures
        p == hi_pow2(n),
    decreases n,
{
    if n < 2 {
        lemma_is_pow2_pos(p);
    } else {
        if p == 1 {
            assert(n < 2);
            assert(false);
        }
        assert(p % 2 == 0 && is_pow2(p / 2));
        lemma_is_pow2_pos(p / 2);
        assert(p == 2 * (p / 2));
        assert(p / 2 <= n / 2) by {
            assert(p <= n);
        }
        assert(n / 2 < p) by {
            assert(n < 2 * p);
        }
        assert(n / 2 < 2 * (p / 2));
        lemma_hi_pow2_unique(n / 2, p / 2);
    }
}

/// The number of one bits, computed by halving.
pub fn popcount_exec(x: u64) -> (r: u64)
    ensures
        r == popcount(x as nat),
{
    let mut m: u64 = x;
    let mut acc: u64 = 0;
    proof {
        lemma_popcount_le(x as nat);
    }
    while m > 0
        invariant
            popcount(x as nat) == acc + popcount(m as nat),
            popcount(x as nat) <= x,
        decreases m,
    {
        proof {
            lemma_popcount_pos(m as nat);
            assert(popcount(m as nat) == popcount((m / 2) as nat) + (m as nat % 2));
        }
        acc = acc + m % 2;
        m = m / 2;
    }
    acc
}

/// Size of the accumulator for a number of leaves: zero for zero leaves, and
/// otherwise the standard leaf-count-to-size mapping.
pub fn mmr_size_from_number_of_leaves(leaves: u64) -> (r: u64)
    requires
        leaves <= MAX_LEAVES,
    ensures
        r == mmr_size_spec(leaves as nat),
{
    let pc = popcount_exec(leaves);
    proof {
        lemma_popcount_le(leaves as nat);
    }
    2 * leaves - pc
}

/// The accumulator position of the leaf with the given index.
pub fn leaf_index_to_pos(index: u64) -> (r: u64)
    requires
        index <= MAX_LEAVES,
    ensures
        r == leaf_pos_spec(index as nat),
{
    mmr_size_from_number_of_leaves(index)
}

impl Hashable for LeafData {
    open spec fn hash_spec(&self) -> Seq<u8> {
        blake2_of(leaf_bytes_spec(self@))
    }

    /// A leaf hashes its encoded payload.
    fn hash(&self) -> (r: Vec<u8>) {
        let payload = leaf_bytes(self);
        blake2_256(&payload)
    }
}

impl Hashable for TestHeader {
    open spec fn hash_spec(&self) -> Seq<u8> {
        blake2_of(header_bytes_spec(*self))
    }

    /// A header hashes its encoded form.
    fn hash(&self) -> (r: Vec<u8>) {
        let payload = header_bytes(self);
        blake2_256(&payload)
    }
}

} // verus!
