//! Facts about indices and powers of two that the network's proofs use.
//! An index `i` lies in run `i >> e` of length `2^e`, at offset `i & (2^e - 1)`.

use vstd::prelude::*;
use vstd::arithmetic::power2::lemma_pow2_unfold;
use vstd::bits::{lemma_u32_shl_is_mul, lemma_u32_shr_is_div, lemma_u32_pow2_no_overflow};

verus! {

/// `2^e` as a 32-bit number.
pub open spec fn p2(e: u32) -> u32 {
    1u32 << e
}

/// Index of the run of length `2^e` that holds `i`.
pub open spec fn run(i: u32, e: u32) -> u32 {
    i >> e
}

/// Offset of `i` in its run of length `2^e`.
pub open spec fn off(i: u32, e: u32) -> u32 {
    i & ((1u32 << e) - 1) as u32
}

/// How bit `e` of `x` splits the run of `2^(e+1)` that holds `x` into a
/// lower and an upper half of `2^e`.
pub proof fn lemma_bit_split(x: u32, e: u32)
    requires
        e < 31,
    ensures
        p2(e) > 0,
        p2((e + 1) as u32) == 2 * p2(e),
        off(x, e) < p2(e),
        (x & p2(e) == 0) == (run(x, e) % 2 == 0),
        x & p2(e) == 0 ==> off(x, (e + 1) as u32) == off(x, e),
        x & p2(e) != 0 ==> off(x, (e + 1) as u32) == off(x, e) + p2(e),
        x & p2(e) == 0 ==> x ^ p2(e) == x + p2(e),
        x & p2(e) != 0 ==> x ^ p2(e) == x - p2(e),
        run(x, e) / 2 == run(x, (e + 1) as u32),
        x & p2(e) != 0 ==> x >= p2(e) && ((x - p2(e)) as u32) & p2(e) == 0,
{
    assert({
        &&& p2(e) > 0
        &&& p2((e + 1) as u32) == 2 * p2(e)
        &&& off(x, e) < p2(e)
        &&& (x & p2(e) == 0) == (run(x, e) % 2 == 0)
        &&& x & p2(e) == 0 ==> off(x, (e + 1) as u32) == off(x, e)
        &&& x & p2(e) != 0 ==> off(x, (e + 1) as u32) == off(x, e) + p2(e)
        &&& x & p2(e) == 0 ==> x ^ p2(e) == x + p2(e)
        &&& x & p2(e) != 0 ==> x ^ p2(e) == x - p2(e)
        &&& run(x, e) / 2 == run(x, (e + 1) as u32)
        &&& x & p2(e) != 0 ==> x >= p2(e) && ((x - p2(e)) as u32) & p2(e) == 0
    }) by (bit_vector)
        requires
            e < 31,
    ;
}

/// The upper member `x + 2^e` of a pair lies in the same run of `2^(e+1)`
/// and in the same block of `2^(s+1)` as its lower member `x`.
pub proof fn lemma_partner_up(x: u32, e: u32, s: u32)
    requires
        e <= s,
        s < 31,
        x & p2(e) == 0,
    ensures
        x + p2(e) <= u32::MAX,
        ((x + p2(e)) as u32) & p2(e) != 0,
        run((x + p2(e)) as u32, (e + 1) as u32) == run(x, (e + 1) as u32),
        off((x + p2(e)) as u32, e) == off(x, e),
        run((x + p2(e)) as u32, (s + 1) as u32) == run(x, (s + 1) as u32),
{
    assert(x + p2(e) <= u32::MAX) by (bit_vector)
        requires
            e < 31,
            x & p2(e) == 0,
    ;
    let y = (x + p2(e)) as u32;
    assert(y & p2(e) != 0 && run(y, (e + 1) as u32) == run(x, (e + 1) as u32) && off(y, e) == off(
        x,
        e,
    )) by (bit_vector)
        requires
            e < 31,
            x & p2(e) == 0,
            y == (x + p2(e)) as u32,
    ;
    assert(run(y, (s + 1) as u32) == run(x, (s + 1) as u32)) by (bit_vector)
        requires
            e <= s,
            s < 31,
            x & p2(e) == 0,
            y == (x + p2(e)) as u32,
    ;
}

/// Runs of `2^e`, `2^(e+1)` and blocks of `2^(s+1)` nest.
pub proof fn lemma_runs_nest(i: u32, j: u32, e: u32, s: u32)
    requires
        e <= s,
        s < 31,
    ensures
        run(i, (e + 1) as u32) == run(j, (e + 1) as u32) ==> run(i, (s + 1) as u32) == run(
            j,
            (s + 1) as u32,
        ),
        run(i, e) < run(j, e) ==> i < j,
        i < j ==> run(i, (e + 1) as u32) <= run(j, (e + 1) as u32),
        run(i, (e + 1) as u32) < run(j, (e + 1) as u32) ==> run(i, e) < run(j, e),
        (run(i, (e + 1) as u32) == run(j, (e + 1) as u32) && run(i, e) < run(j, e)) ==> (i & p2(e)
            == 0 && j & p2(e) != 0),
        run(i, (s + 1) as u32) == run(i, e) >> ((s + 1 - e) as u32),
{
    assert(run(i, (e + 1) as u32) == run(j, (e + 1) as u32) ==> run(i, (s + 1) as u32) == run(
        j,
        (s + 1) as u32,
    )) by (bit_vector)
        requires
            e <= s,
            s < 31,
    ;
    assert(run(i, e) < run(j, e) ==> i < j) by (bit_vector)
        requires
            e < 31,
    ;
    assert(i < j ==> run(i, (e + 1) as u32) <= run(j, (e + 1) as u32)) by (bit_vector)
        requires
            e < 31,
    ;
    assert(run(i, (e + 1) as u32) < run(j, (e + 1) as u32) ==> run(i, e) < run(j, e)) by (bit_vector)
        requires
            e < 31,
    ;
    assert((run(i, (e + 1) as u32) == run(j, (e + 1) as u32) && run(i, e) < run(j, e)) ==> (i
        & p2(e) == 0 && j & p2(e) != 0)) by (bit_vector)
        requires
            e < 31,
    ;
    assert(run(i, (s + 1) as u32) == run(i, e) >> ((s + 1 - e) as u32)) by (bit_vector)
        requires
            e <= s,
            s < 31,
    ;
}

/// In a buffer of `2^k` elements, the lower member of a pair `2^e` apart,
/// `e < k`, has its partner in the buffer.
pub proof fn lemma_partner_in_range(x: u32, e: u32, k: u32)
    requires
        e < k,
        k < 32,
        x < p2(k),
    ensures
        x & p2(e) == 0 ==> x + p2(e) < p2(k),
{
    assert(x & p2(e) == 0 ==> x + p2(e) < p2(k)) by (bit_vector)
        requires
            e < k,
            k < 32,
            x < p2(k),
    ;
}

/// An index is its run's start plus its offset, and the run ends inside a
/// buffer of `2^k` elements when `f <= k`.
pub proof fn lemma_run_base(x: u32, f: u32, k: u32)
    requires
        f <= k,
        k < 32,
        x < p2(k),
    ensures
        run(x, f) * p2(f) + off(x, f) == x,
        off(x, f) < p2(f),
        (run(x, f) + 1) * p2(f) <= p2(k),
        run(x, 0) == x,
        p2(0) == 1,
{
    assert(run(x, f) * p2(f) + off(x, f) == x && off(x, f) < p2(f)) by (bit_vector)
        requires
            f < 32,
    ;
    assert((run(x, f) + 1) * p2(f) <= p2(k)) by (bit_vector)
        requires
            f <= k,
            k < 32,
            x < p2(k),
    ;
    assert(run(x, 0) == x && p2(0) == 1) by (bit_vector);
}

/// Every index of a buffer of `2^k` elements lies in run 0 of length `2^k`.
pub proof fn lemma_single_run(x: u32, k: u32)
    requires
        k < 32,
        x < p2(k),
    ensures
        run(x, k) == 0,
        run(x, 0) == x,
{
    assert(run(x, k) == 0 && run(x, 0) == x) by (bit_vector)
        requires
            k < 32,
            x < p2(k),
    ;
}

/// The block index that the kernel computes as `tid / (2 << stage)`.
pub proof fn lemma_block_index(tid: u32, s: u32)
    requires
        s < 31,
    ensures
        2u32 << s != 0,
        tid / (2u32 << s) == run(tid, (s + 1) as u32),
{
    lemma_u32_pow2_no_overflow((s + 1) as nat);
    lemma_u32_pow2_no_overflow(s as nat);
    lemma_pow2_unfold((s + 1) as nat);
    lemma_u32_shl_is_mul(2, s);
    lemma_u32_shr_is_div(tid, (s + 1) as u32);
}

} // verus!
