//! Powers of two: the padded length of a buffer and the number of stages
//! that sort it.

use vstd::prelude::*;
use vstd::arithmetic::power2::{pow2, lemma_pow2_unfold, lemma_pow2_pos, lemma_pow2_strictly_increases, lemma2_to64};
use vstd::bits::{lemma_u32_shl_is_mul, lemma_u32_pow2_no_overflow};
use crate::bitfacts::p2;
use crate::network::log2_floor;

verus! {

/// The exponent of the least power of two that is at least `n`.
pub open spec fn ceil_log2(n: nat) -> nat
    decreases n,
{
    if n <= 1 {
        0
    } else {
        1 + ceil_log2(((n + 1) / 2) as nat)
    }
}

/// The least power of two that is at least `n` (1 for 0).
pub open spec fn next_pow2(n: nat) -> nat {
    pow2(ceil_log2(n))
}

pub proof fn lemma_ceil_log2(n: nat)
    ensures
        pow2(ceil_log2(n)) >= n,
        ceil_log2(n) > 0 ==> pow2((ceil_log2(n) - 1) as nat) < n,
    decreases n,
{
    lemma2_to64();
    if n > 1 {
        let m = ((n + 1) / 2) as nat;
        lemma_ceil_log2(m);
        lemma_pow2_unfold(ceil_log2(n));
        if ceil_log2(m) > 0 {
            lemma_pow2_unfold(ceil_log2(m));
        } else {
            lemma2_to64();
        }
    }
}

/// A power of two `2^k` that is at least `n`, while `2^(k-1)` is not, is
/// `next_pow2(n)`.
pub proof fn lemma_next_pow2_unique(n: nat, k: nat)
    requires
        pow2(k) >= n,
        k > 0 ==> pow2((k - 1) as nat) < n,
    ensures
        k == ceil_log2(n),
{
    let c = ceil_log2(n);
    lemma_ceil_log2(n);
    if k < c {
        if k < (c - 1) as nat {
            lemma_pow2_strictly_increases(k, (c - 1) as nat);
        }
    } else if k > c {
        if c < (k - 1) as nat {
            lemma_pow2_strictly_increases(c, (k - 1) as nat);
        }
    }
}

pub proof fn lemma_log2_floor_pow2(k: nat)
    ensures
        log2_floor(pow2(k)) == k,
    decreases k,
{
    if k > 0 {
        lemma_pow2_unfold(k);
        lemma_pow2_pos((k - 1) as nat);
        lemma_log2_floor_pow2((k - 1) as nat);
        assert(pow2(k) / 2 == pow2((k - 1) as nat));
    } else {
        lemma2_to64();
    }
}

pub proof fn lemma_log2_floor_bound(n: nat, m: nat)
    requires
        n < pow2(m + 1),
    ensures
        log2_floor(n) <= m,
    decreases n,
{
    lemma_pow2_unfold(m + 1);
    if n >= 2 && m > 0 {
        lemma_log2_floor_bound(n / 2, (m - 1) as nat);
    } else if n >= 2 {
        lemma2_to64();
    }
}

/// `p2(k)` is `2^k`.
pub proof fn lemma_p2_is_pow2(k: u32)
    requires
        k < 32,
    ensures
        p2(k) == pow2(k as nat),
{
    lemma_u32_pow2_no_overflow(k as nat);
    lemma_u32_shl_is_mul(1, k);
}

/// `floor(log2(n))`, with 0 for 0 and 1.
pub fn log2_floor_u32(n: u32) -> (r: u32)
    ensures
        r == log2_floor(n as nat),
        r <= 31,
{
    proof {
        lemma2_to64();
        lemma_log2_floor_bound(n as nat, 31);
    }
    let mut m = n;
    let mut k: u32 = 0;
    while m >= 2
        invariant
            log2_floor(n as nat) == k + log2_floor(m as nat),
            log2_floor(n as nat) <= 31,
        decreases m,
    {
        m = m / 2;
        k = k + 1;
    }
    k
}

/// The least power of two that is at least `n`, as `usize::next_power_of_two`
/// computes it when it does not overflow.
pub fn next_power_of_two(n: usize) -> (r: usize)
    requires
        n <= usize::MAX / 2 + 1,
    ensures
        r == next_pow2(n as nat),
{
    let mut p: usize = 1;
    let ghost mut k: nat = 0;
    proof {
        lemma2_to64();
    }
    while p < n
        invariant
            p == pow2(k),
            p >= 1,
            k > 0 ==> pow2((k - 1) as nat) < n,
            n <= usize::MAX / 2 + 1,
        decreases usize::MAX - p,
    {
        proof {
            lemma_pow2_unfold(k + 1);
        }
        p = p * 2;
        proof {
            k = k + 1;
        }
    }
    proof {
        lemma_next_pow2_unique(n as nat, k);
    }
    p
}

} // verus!
