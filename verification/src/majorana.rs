//! The integer part of one rotation step of a sum of Majorana strings.
//!
//! A term occupies `2 * (num_chunks + 2)` words: two words for its complex
//! coefficient, then its Majorana string as `num_chunks` bit chunks. The
//! rotated copy of a term is written right after it: two words of
//! coefficient, then the product string. What is decided here is whether a
//! term is dropped, whether it commutes with the rotation, the product string,
//! and the four phases that turn its coefficient; the coefficients themselves
//! are floating point and are computed by the caller.

use vstd::prelude::*;
use vstd::std_specs::bits::axiom_u32_trailing_zeros;
use crate::majorana_laws::{
    present, count_present, count_common, count_unpaired_modes, pairs_before, lemma_unpaired_law,
    lemma_commutes_law, lemma_weight_counts, lemma_cross_law, lemma_product_law,
};

verus! {

/// Mask of the even bit positions of a chunk.
pub const EVEN_BITS_MASK: u32 = 0x55555555;

/// Number of ones in the binary representation of `x`.
pub open spec fn popcount(x: nat) -> nat
    decreases x,
{
    if x == 0 {
        0
    } else {
        x % 2 + popcount(x / 2)
    }
}

/// `u32::count_ones`, which the standard library documents as the number of
/// ones in the binary representation of the number; the contract claims
/// exactly that.
#[verifier::external_body]
fn count_ones(x: u32) -> (r: u32)
    ensures
        r == popcount(x as nat),
{
    x.count_ones()
}

proof fn lemma_popcount_bound(x: nat, k: nat)
    requires
        x < vstd::arithmetic::power2::pow2(k),
    ensures
        popcount(x) <= k,
    decreases k,
{
    vstd::arithmetic::power2::lemma2_to64();
    if k > 0 {
        vstd::arithmetic::power2::lemma_pow2_unfold(k);
        if x > 0 {
            lemma_popcount_bound(x / 2, (k - 1) as nat);
        }
    }
}

proof fn lemma_popcount_u32(x: u32)
    ensures
        popcount(x as nat) <= 32,
{
    vstd::arithmetic::power2::lemma2_to64();
    lemma_popcount_bound(x as nat, 32);
}

/// Bit `b` of `x` is set.
pub open spec fn bit(x: u32, b: u32) -> bool {
    (x >> b) & 1 == 1
}

/// Bits `0..b` set.
pub open spec fn low_mask(b: u32) -> u32 {
    ((1u32 << b) - 1) as u32
}

/// Number of unpaired modes in the chunks `op[0..n]`: positions where the
/// two Majorana operators of a fermionic mode differ.
pub open spec fn unpaired(op: Seq<u32>, n: nat) -> nat
    decreases n,
{
    if n == 0 {
        0
    } else {
        unpaired(op, (n - 1) as nat) + popcount(
            (((op[n - 1] >> 1u32) ^ op[n - 1]) & EVEN_BITS_MASK) as nat,
        )
    }
}

/// Number of set bits in the chunks `op[0..n]`.
pub open spec fn weight(op: Seq<u32>, n: nat) -> nat
    decreases n,
{
    if n == 0 {
        0
    } else {
        weight(op, (n - 1) as nat) + popcount(op[n - 1] as nat)
    }
}

/// Number of positions set in both `op[0..n]` and `rot[0..n]`.
pub open spec fn overlap(op: Seq<u32>, rot: Seq<u32>, n: nat) -> nat
    decreases n,
{
    if n == 0 {
        0
    } else {
        overlap(op, rot, (n - 1) as nat) + popcount((op[n - 1] & rot[n - 1]) as nat)
    }
}

/// Whether the string `op` commutes with the rotation string `rot`.
pub open spec fn commutes(op: Seq<u32>, rot: Seq<u32>, n: nat) -> bool {
    (weight(op, n) * weight(rot, n) + overlap(op, rot, n)) % 2 == 0
}

/// Number of set bits of `op` before bit `b` of chunk `c`.
pub open spec fn bits_before(op: Seq<u32>, c: int, b: u32) -> nat {
    weight(op, c as nat) + popcount((low_mask(b) & op[c]) as nat)
}

/// For the set bits `b < lim` of `x`, standing for chunk `c` of the rotation,
/// the number of set bits of `op` that come before them, summed.
pub open spec fn chunk_cross(op: Seq<u32>, x: u32, c: int, lim: nat) -> nat
    decreases lim,
{
    if lim == 0 {
        0
    } else {
        chunk_cross(op, x, c, (lim - 1) as nat) + if bit(x, (lim - 1) as u32) {
            bits_before(op, c, (lim - 1) as u32)
        } else {
            0
        }
    }
}

/// Number of pairs of a set bit of `rot[0..n]` and a set bit of `op[0..n]`
/// that comes before it: the sign of reordering the product of the strings.
pub open spec fn cross(op: Seq<u32>, rot: Seq<u32>, n: nat) -> nat
    decreases n,
{
    if n == 0 {
        0
    } else {
        cross(op, rot, (n - 1) as nat) + chunk_cross(op, rot[n - 1], n - 1, 32)
    }
}

/// The value of bit 1 of `w`.
pub open spec fn bit1(w: nat) -> bool {
    (w / 2) % 2 == 1
}

/// What a rotation step decided for a term.
#[derive(Copy, Clone, Debug, PartialEq, Eq, Structural)]
pub enum TermUpdate {
    /// The term has too many unpaired modes and was cleared.
    Dropped,
    /// The term commutes with the rotation and is left as it was.
    Commutes,
    /// The product string was written; the four phases say whether each
    /// factor turns the new coefficient by a quarter.
    Rotated { term_phase: bool, rotation_phase: bool, product_phase: bool, cross_phase: bool },
}

/// `s` with the words in `lo..hi` set to zero.
pub open spec fn cleared(s: Seq<u32>, lo: int, hi: int) -> Seq<u32> {
    Seq::new(s.len(), |i: int| if lo <= i < hi { 0u32 } else { s[i] })
}

/// `s` with the product of the string at `start + 2` and `rot` written at
/// `start + 4 + n`; for `n == 0` that word is set to zero.
pub open spec fn with_product(s: Seq<u32>, start: int, n: nat, rot: Seq<u32>) -> Seq<u32> {
    let old_op = start + 2;
    let new_op = start + 4 + n;
    Seq::new(
        s.len(),
        |i: int|
            if new_op <= i < new_op + n {
                s[old_op + (i - new_op)] ^ rot[i - new_op]
            } else if n == 0 && i == new_op {
                0u32
            } else {
                s[i]
            },
    )
}

/// Index of the first word of the term of thread `thread_id`.
pub fn term_start(thread_id: u32, num_chunks: u32) -> (r: usize)
    requires
        num_chunks + 2 <= usize::MAX,
        thread_id * 2 * (num_chunks + 2) <= usize::MAX,
    ensures
        r == thread_id * 2 * (num_chunks + 2),
{
    assert(thread_id * 2 <= thread_id * 2 * (num_chunks + 2)) by (nonlinear_arith)
        requires
            num_chunks >= 0,
            thread_id >= 0,
    ;
    let a = (thread_id as usize) * 2;
    let b = num_chunks as usize + 2;
    a * b
}

/// Sets the words `start..start + 2 + num_chunks` (a whole term) to zero.
pub fn clear_term(data: &mut [u32], start: usize, num_chunks: usize)
    requires
        start + 2 + num_chunks <= old(data)@.len(),
    ensures
        final(data)@ == cleared(old(data)@, start as int, start + 2 + num_chunks),
{
    let len = data.len();
    let end = start + 2 + num_chunks;
    let mut ix = start;
    while ix < end
        invariant
            start <= ix <= end,
            end == start + 2 + num_chunks,
            end <= old(data)@.len(),
            data@.len() == old(data)@.len(),
            forall|i: int|
                0 <= i < data@.len() ==> #[trigger] data@[i] == if start <= i < ix {
                    0u32
                } else {
                    old(data)@[i]
                },
        decreases end - ix,
    {
        data[ix] = 0;
        ix = ix + 1;
    }
    assert(data@ =~= cleared(old(data)@, start as int, end as int));
}

/// Copies the rotated terms from `gpu_data` back into `output`, as far as
/// both reach.
pub fn copy_rotated_terms(gpu_data: &[u32], output: &mut [u32])
    ensures
        final(output)@ == Seq::new(
            old(output)@.len(),
            |i: int|
                if i < gpu_data@.len() {
                    gpu_data@[i]
                } else {
                    old(output)@[i]
                },
        ),
{
    let mut i: usize = 0;
    while i < output.len() && i < gpu_data.len()
        invariant
            i <= output@.len(),
            output@.len() == old(output)@.len(),
            forall|j: int|
                0 <= j < output@.len() ==> #[trigger] output@[j] == if j < i && j < gpu_data@.len() {
                    gpu_data@[j]
                } else {
                    old(output)@[j]
                },
        decreases output@.len() - i,
    {
        output[i] = gpu_data[i];
        i = i + 1;
    }
    assert(output@ =~= Seq::new(
        old(output)@.len(),
        |j: int|
            if j < gpu_data@.len() {
                gpu_data@[j]
            } else {
                old(output)@[j]
            },
    ));
}

/// The rotation string as the fixed block of ten chunks that a parameter
/// block carries, zero beyond its length.
pub fn rotation_op_array(rotation_op: &Vec<u32>) -> (r: [u32; 10])
    requires
        rotation_op@.len() <= 10,
    ensures
        forall|i: int|
            0 <= i < 10 ==> #[trigger] r@[i] == if i < rotation_op@.len() {
                rotation_op@[i]
            } else {
                0
            },
{
    let mut op = [0u32; 10];
    let mut ix: usize = 0;
    while ix < rotation_op.len()
        invariant
            ix <= rotation_op@.len() <= 10,
            forall|i: int|
                0 <= i < 10 ==> #[trigger] op@[i] == if i < ix {
                    rotation_op@[i]
                } else {
                    0
                },
        decreases rotation_op@.len() - ix,
    {
        op[ix] = rotation_op[ix];
        ix = ix + 1;
    }
    op
}

/// The chunks of the product of the strings `op` and `rot`.
pub open spec fn product(op: Seq<u32>, rot: Seq<u32>, n: nat) -> Seq<u32> {
    Seq::new(n, |i: int| op[i] ^ rot[i])
}

/// The string of the term that starts at `start`.
pub open spec fn term_op(s: Seq<u32>, start: int, n: nat) -> Seq<u32> {
    s.subrange(start + 2, start + 2 + n)
}

proof fn lemma_weight_bound(op: Seq<u32>, n: nat)
    requires
        n <= op.len(),
    ensures
        weight(op, n) <= 32 * n,
    decreases n,
{
    if n > 0 {
        lemma_weight_bound(op, (n - 1) as nat);
        lemma_popcount_u32(op[n - 1]);
    }
}

proof fn lemma_chunk_cross_bound(op: Seq<u32>, x: u32, c: int, lim: nat)
    requires
        0 <= c < 10,
        c < op.len(),
    ensures
        chunk_cross(op, x, c, lim) <= lim * 352,
    decreases lim,
{
    if lim > 0 {
        lemma_chunk_cross_bound(op, x, c, (lim - 1) as nat);
        lemma_weight_bound(op, c as nat);
        lemma_popcount_u32(low_mask((lim - 1) as u32) & op[c]);
    }
}

/// Clearing the lowest set bit `b0` of `x` takes `bits_before(b0)` out of
/// its cross count.
proof fn lemma_chunk_cross_clear(op: Seq<u32>, x: u32, c: int, b0: u32, lim: nat)
    requires
        b0 < 32,
        lim <= 32,
        bit(x, b0),
    ensures
        chunk_cross(op, x, c, lim) == (if b0 < lim {
            bits_before(op, c, b0)
        } else {
            0
        }) + chunk_cross(op, x ^ (1u32 << b0), c, lim),
    decreases lim,
{
    if lim > 0 {
        lemma_chunk_cross_clear(op, x, c, b0, (lim - 1) as nat);
        let b = (lim - 1) as u32;
        let y = x ^ (1u32 << b0);
        assert(bit(y, b) == (bit(x, b) && b != b0)) by (bit_vector)
            requires
                b0 < 32,
                b < 32,
                y == x ^ (1u32 << b0),
                (x >> b0) & 1 == 1,
        ;
    }
}

/// Whether `majorana_update_op` can run on the term at `start` without a
/// panic: the term lies in `s`, its unpaired count fits in 32 bits, a term
/// that is not dropped has at most ten chunks (the rotation string has ten),
/// and a term that is rotated has room for its product after it.
pub open spec fn update_op_defined(s: Seq<u32>, start: int, n: nat, rot: Seq<u32>, cutoff: u32) -> bool {
    let op = term_op(s, start, n);
    &&& start + 2 + n <= s.len()
    &&& unpaired(op, n) <= u32::MAX
    &&& unpaired(op, n) <= cutoff ==> n <= 10
    &&& (unpaired(op, n) <= cutoff && !commutes(op, rot, n)) ==> start + 4 + n + (if n == 0 {
        1int
    } else {
        n as int
    }) <= s.len()
}

/// Whether `majorana_update_op` can run on the term at `start`, that is
/// `update_op_defined`, computed, so that a caller can test it first.
pub fn majorana_update_op_defined(
    data: &[u32],
    start: usize,
    num_chunks: usize,
    rotation_op: &[u32; 10],
    unpaired_cutoff: u32,
) -> (r: bool)
    ensures
        r == update_op_defined(
            data@,
            start as int,
            num_chunks as nat,
            rotation_op@,
            unpaired_cutoff,
        ),
{
    let len = data.len();
    if start > len || num_chunks > len - start || len - start - num_chunks < 2 {
        return false;
    }
    let ghost op = term_op(data@, start as int, num_chunks as nat);
    let ghost n = num_chunks as nat;
    let old_op_start = start + 2;
    let mut total: u64 = 0;
    let mut ix: usize = 0;
    while ix < num_chunks
        invariant
            ix <= num_chunks,
            n == num_chunks,
            len == data@.len(),
            old_op_start == start + 2,
            start + 2 + num_chunks <= data@.len(),
            op == term_op(data@, start as int, num_chunks as nat),
            total == unpaired(op, ix as nat),
            total <= u32::MAX,
        decreases num_chunks - ix,
    {
        let w = data[old_op_start + ix];
        proof {
            assert(op[ix as int] == w);
            lemma_popcount_u32(((w >> 1u32) ^ w) & EVEN_BITS_MASK);
        }
        total = total + count_ones(((w >> 1u32) ^ w) & EVEN_BITS_MASK) as u64;
        ix = ix + 1;
        if total > u32::MAX as u64 {
            proof {
                lemma_unpaired_monotone(op, ix as nat, n);
            }
            return false;
        }
    }
    if total > unpaired_cutoff as u64 {
        return true;
    }
    if num_chunks > 10 {
        return false;
    }
    let mut term_op_weight: u32 = 0;
    let mut rotation_op_weight: u32 = 0;
    let mut weight_of_product: u32 = 0;
    let mut ix: usize = 0;
    while ix < num_chunks
        invariant
            ix <= num_chunks <= 10,
            len == data@.len(),
            old_op_start == start + 2,
            start + 2 + num_chunks <= data@.len(),
            op == term_op(data@, start as int, num_chunks as nat),
            term_op_weight == weight(op, ix as nat),
            rotation_op_weight == weight(rotation_op@, ix as nat),
            weight_of_product == overlap(op, rotation_op@, ix as nat),
            term_op_weight <= 32 * ix,
            rotation_op_weight <= 32 * ix,
            weight_of_product <= 32 * ix,
        decreases num_chunks - ix,
    {
        let w = data[old_op_start + ix];
        let v = rotation_op[ix];
        proof {
            lemma_popcount_u32(w & v);
            lemma_popcount_u32(w);
            lemma_popcount_u32(v);
            assert(op[ix as int] == w);
        }
        weight_of_product = weight_of_product + count_ones(w & v);
        term_op_weight = term_op_weight + count_ones(w);
        rotation_op_weight = rotation_op_weight + count_ones(v);
        ix = ix + 1;
    }
    assert(term_op_weight * rotation_op_weight <= 320 * 320) by (nonlinear_arith)
        requires
            term_op_weight <= 320,
            rotation_op_weight <= 320,
    ;
    if (term_op_weight * rotation_op_weight + weight_of_product) % 2 == 0 {
        return true;
    }
    let room = if num_chunks == 0 {
        1
    } else {
        num_chunks
    };
    len - start - num_chunks >= 4 + room
}

/// The buffer after the integer part of a rotation step on the term at
/// `start`: cleared when it has too many unpaired modes, unchanged when it
/// commutes with `rot`, and with the product written after it otherwise.
pub open spec fn update_op_spec(s: Seq<u32>, start: int, n: nat, rot: Seq<u32>, cutoff: u32) -> Seq<u32> {
    let op = term_op(s, start, n);
    if unpaired(op, n) > cutoff {
        cleared(s, start, start + 2 + n)
    } else if commutes(op, rot, n) {
        s
    } else {
        with_product(s, start, n, rot)
    }
}

/// Length of the slot of one thread: its term and the rotated copy.
pub open spec fn slot_len(n: nat) -> int {
    2 * (n as int + 2)
}

/// The step on the term at `a` only reads and writes the slot
/// `a..a + slot_len(n)`.
proof fn lemma_update_frame(s: Seq<u32>, t: Seq<u32>, a: int, n: nat, rot: Seq<u32>, cutoff: u32)
    requires
        s.len() == t.len(),
        0 <= a,
        a + slot_len(n) <= s.len(),
        forall|i: int| a <= i < a + slot_len(n) ==> s[i] == t[i],
    ensures
        update_op_spec(s, a, n, rot, cutoff).len() == s.len(),
        forall|i: int|
            a <= i < a + slot_len(n) ==> #[trigger] update_op_spec(s, a, n, rot, cutoff)[i]
                == update_op_spec(t, a, n, rot, cutoff)[i],
        forall|i: int|
            0 <= i < s.len() && !(a <= i < a + slot_len(n)) ==> #[trigger] update_op_spec(
                s,
                a,
                n,
                rot,
                cutoff,
            )[i] == s[i],
{
    assert(term_op(s, a, n) =~= term_op(t, a, n));
    if n == 0 {
        let op = term_op(s, a, n);
        assert(weight(op, 0) == 0 && weight(rot, 0) == 0 && overlap(op, rot, 0) == 0);
        assert(weight(op, 0) * weight(rot, 0) == 0) by (nonlinear_arith)
            requires
                weight(op, 0) == 0,
        ;
        assert(commutes(op, rot, n));
    }
}

/// Two threads of one dispatch whose slots do not overlap can run in either
/// order: the integer part of their steps leaves the same buffer.
pub proof fn lemma_slots_commute(s: Seq<u32>, a: int, b: int, n: nat, rot: Seq<u32>, cutoff: u32)
    requires
        0 <= a,
        a + slot_len(n) <= b,
        b + slot_len(n) <= s.len(),
    ensures
        update_op_spec(update_op_spec(s, a, n, rot, cutoff), b, n, rot, cutoff) == update_op_spec(
            update_op_spec(s, b, n, rot, cutoff),
            a,
            n,
            rot,
            cutoff,
        ),
{
    let sa = update_op_spec(s, a, n, rot, cutoff);
    let sb = update_op_spec(s, b, n, rot, cutoff);
    lemma_update_frame(s, s, a, n, rot, cutoff);
    lemma_update_frame(s, s, b, n, rot, cutoff);
    lemma_update_frame(sa, s, b, n, rot, cutoff);
    lemma_update_frame(sb, s, a, n, rot, cutoff);
    let x = update_op_spec(sa, b, n, rot, cutoff);
    let y = update_op_spec(sb, a, n, rot, cutoff);
    assert forall|i: int| 0 <= i < s.len() implies x[i] == y[i] by {
        if a <= i < a + slot_len(n) {
            assert(x[i] == sa[i]);
            assert(y[i] == sa[i]);
        } else if b <= i < b + slot_len(n) {
            assert(y[i] == sb[i]);
            assert(x[i] == sb[i]);
        } else {
            assert(x[i] == s[i]);
            assert(y[i] == s[i]);
        }
    }
    assert(x =~= y);
}

/// The integer part of a rotation step on the term at `start` with
/// `num_chunks` chunks: a term with more than `unpaired_cutoff` unpaired
/// modes is cleared; a term that commutes with `rotation_op` is left as it
/// is; otherwise the product string is written after the term and the four
/// phases are returned.
pub fn majorana_update_op(
    data: &mut [u32],
    start: usize,
    num_chunks: usize,
    rotation_op: &[u32; 10],
    unpaired_cutoff: u32,
) -> (r: TermUpdate)
    requires
        update_op_defined(
            old(data)@,
            start as int,
            num_chunks as nat,
            rotation_op@,
            unpaired_cutoff,
        ),
    ensures
        ({
            let op = term_op(old(data)@, start as int, num_chunks as nat);
            let rot = rotation_op@;
            let n = num_chunks as nat;
            &&& final(data)@ == update_op_spec(old(data)@, start as int, n, rot, unpaired_cutoff)
            &&& (r == TermUpdate::Dropped) == (unpaired(op, n) > unpaired_cutoff)
            &&& r == TermUpdate::Dropped ==> final(data)@ == cleared(
                old(data)@,
                start as int,
                start + 2 + num_chunks,
            )
            &&& (r == TermUpdate::Commutes) == (unpaired(op, n) <= unpaired_cutoff && commutes(
                op,
                rot,
                n,
            ))
            &&& r == TermUpdate::Commutes ==> final(data)@ == old(data)@
            &&& r matches TermUpdate::Rotated {
                term_phase,
                rotation_phase,
                product_phase,
                cross_phase,
            } ==> {
                &&& final(data)@ == with_product(old(data)@, start as int, n, rot)
                &&& term_phase == bit1(weight(op, n))
                &&& rotation_phase == bit1(weight(rot, n))
                &&& product_phase == bit1(weight(product(op, rot, n), n))
                &&& cross_phase == (cross(op, rot, n) % 2 == 1)
            }
            &&& (r == TermUpdate::Dropped) == (count_unpaired_modes(op, 16 * n) > unpaired_cutoff)
            &&& (r == TermUpdate::Commutes) == (count_unpaired_modes(op, 16 * n) <= unpaired_cutoff
                && (count_present(op, 32 * n) * count_present(rot, 32 * n) + count_common(
                op,
                rot,
                32 * n,
            )) % 2 == 0)
            &&& r matches TermUpdate::Rotated {
                term_phase,
                rotation_phase,
                product_phase,
                cross_phase,
            } ==> {
                let written = final(data)@.subrange(start + 4 + n, start + 4 + 2 * n);
                &&& forall|p: int|
                    0 <= p < 32 * n ==> #[trigger] present(written, p) == (present(op, p)
                        != present(rot, p))
                &&& term_phase == bit1(count_present(op, 32 * n))
                &&& rotation_phase == bit1(count_present(rot, 32 * n))
                &&& product_phase == bit1(count_present(written, 32 * n))
                &&& cross_phase == (pairs_before(op, rot, 32 * n) % 2 == 1)
            }
        }),
{
    let ghost op = term_op(data@, start as int, num_chunks as nat);
    let ghost rot = rotation_op@;
    let ghost n = num_chunks as nat;
    let len = data.len();
    let old_op_start = start + 2;

    let mut num_unpaired: u32 = 0;
    let mut ix: usize = 0;
    while ix < num_chunks
        invariant
            ix <= num_chunks,
            old_op_start == start + 2,
            start + 2 + num_chunks <= data@.len(),
            data@ == old(data)@,
            op == term_op(data@, start as int, num_chunks as nat),
            num_unpaired == unpaired(op, ix as nat),
            unpaired(op, num_chunks as nat) <= u32::MAX,
        decreases num_chunks - ix,
    {
        let w = data[old_op_start + ix];
        let pairs = count_ones(((w >> 1u32) ^ w) & EVEN_BITS_MASK);
        proof {
            assert(op[ix as int] == w);
            lemma_unpaired_monotone(op, (ix + 1) as nat, num_chunks as nat);
        }
        num_unpaired = num_unpaired + pairs;
        ix = ix + 1;
    }
    proof {
        lemma_unpaired_law(op, n);
    }
    if num_unpaired > unpaired_cutoff {
        clear_term(data, start, num_chunks);
        return TermUpdate::Dropped;
    }
    proof {
        lemma_commutes_law(op, rot, n);
    }

    let mut term_op_weight: u32 = 0;
    let mut rotation_op_weight: u32 = 0;
    let mut weight_of_product: u32 = 0;
    let mut ix: usize = 0;
    while ix < num_chunks
        invariant
            ix <= num_chunks <= 10,
            old_op_start == start + 2,
            start + 2 + num_chunks <= data@.len(),
            data@ == old(data)@,
            op == term_op(data@, start as int, num_chunks as nat),
            rot == rotation_op@,
            term_op_weight == weight(op, ix as nat),
            rotation_op_weight == weight(rot, ix as nat),
            weight_of_product == overlap(op, rot, ix as nat),
            term_op_weight <= 32 * ix,
            rotation_op_weight <= 32 * ix,
            weight_of_product <= 32 * ix,
        decreases num_chunks - ix,
    {
        let w = data[old_op_start + ix];
        let v = rotation_op[ix];
        proof {
            lemma_popcount_u32(w & v);
            lemma_popcount_u32(w);
            lemma_popcount_u32(v);
            assert(op[ix as int] == w);
        }
        weight_of_product = weight_of_product + count_ones(w & v);
        term_op_weight = term_op_weight + count_ones(w);
        rotation_op_weight = rotation_op_weight + count_ones(v);
        ix = ix + 1;
    }
    assert(term_op_weight * rotation_op_weight <= 320 * 320) by (nonlinear_arith)
        requires
            term_op_weight <= 320,
            rotation_op_weight <= 320,
    ;
    if (term_op_weight * rotation_op_weight + weight_of_product) % 2 == 0 {
        return TermUpdate::Commutes;
    }

    let new_op_start = start + 4 + num_chunks;
    data[new_op_start] = 0;
    let ghost zeroed = data@;
    let mut cross_phase_tot: u32 = 0;
    let mut prev_chunk_sum: u32 = 0;
    let mut chunk_ix: usize = 0;
    while chunk_ix < num_chunks
        invariant
            chunk_ix <= num_chunks <= 10,
            old_op_start == start + 2,
            new_op_start == start + 4 + num_chunks,
            new_op_start < data@.len(),
            data@ == zeroed,
            op == term_op(data@, start as int, num_chunks as nat),
            rot == rotation_op@,
            prev_chunk_sum == weight(op, chunk_ix as nat),
            prev_chunk_sum <= 32 * chunk_ix,
            cross_phase_tot == cross(op, rot, chunk_ix as nat),
            cross_phase_tot <= chunk_ix * 11264,
        decreases num_chunks - chunk_ix,
    {
        let mut chunk_1 = rotation_op[chunk_ix];
        let chunk_2 = data[old_op_start + chunk_ix];
        let ghost base = cross_phase_tot;
        proof {
            assert(op[chunk_ix as int] == chunk_2);
            lemma_chunk_cross_bound(op, rot[chunk_ix as int], chunk_ix as int, 32);
        }
        while chunk_1 > 0
            invariant
                chunk_ix < num_chunks <= 10,
                rot == rotation_op@,
                op[chunk_ix as int] == chunk_2,
                op.len() == num_chunks,
                prev_chunk_sum == weight(op, chunk_ix as nat),
                prev_chunk_sum <= 32 * chunk_ix,
                base <= chunk_ix * 11264,
                chunk_cross(op, rot[chunk_ix as int], chunk_ix as int, 32) <= 11264,
                cross_phase_tot + chunk_cross(op, chunk_1, chunk_ix as int, 32) == base
                    + chunk_cross(op, rot[chunk_ix as int], chunk_ix as int, 32),
            decreases chunk_1,
        {
            let lz = chunk_1.trailing_zeros();
            proof {
                axiom_u32_trailing_zeros(chunk_1);
            }
            let one = 1u32 << lz;
            assert(one >= 1) by (bit_vector)
                requires
                    lz < 32,
                    one == 1u32 << lz,
            ;
            let filter = one - 1;
            let t = count_ones(filter & chunk_2);
            proof {
                lemma_popcount_u32(filter & chunk_2);
                lemma_chunk_cross_clear(op, chunk_1, chunk_ix as int, lz, 32);
                assert(filter == low_mask(lz));
                assert(bits_before(op, chunk_ix as int, lz) == prev_chunk_sum + t);
            }
            cross_phase_tot = cross_phase_tot + prev_chunk_sum + t;
            let next = chunk_1 ^ one;
            assert(next < chunk_1) by (bit_vector)
                requires
                    lz < 32,
                    one == 1u32 << lz,
                    (chunk_1 >> lz) & 1 == 1,
                    next == chunk_1 ^ one,
            ;
            chunk_1 = next;
        }
        proof {
            assert(chunk_cross(op, 0u32, chunk_ix as int, 32) == 0) by {
                lemma_chunk_cross_zero(op, chunk_ix as int, 32);
            }
            lemma_popcount_u32(chunk_2);
        }
        prev_chunk_sum = prev_chunk_sum + count_ones(chunk_2);
        chunk_ix = chunk_ix + 1;
    }

    let mut new_op_weight: u32 = 0;
    let ghost prod = product(op, rot, n);
    let mut ix: usize = 0;
    while ix < num_chunks
        invariant
            ix <= num_chunks <= 10,
            old_op_start == start + 2,
            new_op_start == start + 4 + num_chunks,
            new_op_start < data@.len(),
            start + 4 + 2 * num_chunks <= data@.len(),
            op == term_op(zeroed, start as int, num_chunks as nat),
            rot == rotation_op@,
            prod == product(op, rot, n),
            n == num_chunks,
            new_op_start < old(data)@.len(),
            zeroed == old(data)@.update(new_op_start as int, 0u32),
            data@.len() == zeroed.len(),
            forall|i: int|
                0 <= i < data@.len() ==> #[trigger] data@[i] == if new_op_start <= i
                    < new_op_start + ix {
                    prod[i - new_op_start]
                } else {
                    zeroed[i]
                },
            new_op_weight == weight(prod, ix as nat),
            new_op_weight <= 32 * ix,
        decreases num_chunks - ix,
    {
        let t = data[old_op_start + ix] ^ rotation_op[ix];
        proof {
            lemma_popcount_u32(t);
            assert(data@[old_op_start + ix] == op[ix as int]);
            assert(prod[ix as int] == t);
        }
        new_op_weight = new_op_weight + count_ones(t);
        data[new_op_start + ix] = t;
        ix = ix + 1;
    }
    proof {
        assert(data@ =~= with_product(old(data)@, start as int, n, rot));
        lemma_weight_counts(op, n);
        lemma_weight_counts(rot, n);
        lemma_weight_counts(prod, n);
        lemma_cross_law(op, rot, n);
        assert forall|p: int| 0 <= p < 32 * n implies #[trigger] present(
            data@.subrange(start + 4 + n, start + 4 + 2 * n),
            p,
        ) == (present(op, p) != present(rot, p)) by {
            lemma_product_law(old(data)@, start as int, n, rot, p);
        }
        lemma_product_law(old(data)@, start as int, n, rot, 0);
        assert((term_op_weight & 2 != 0) == bit1(term_op_weight as nat)) by (bit_vector);
        assert((rotation_op_weight & 2 != 0) == bit1(rotation_op_weight as nat)) by (bit_vector);
        assert((new_op_weight & 2 != 0) == bit1(new_op_weight as nat)) by (bit_vector);
    }
    TermUpdate::Rotated {
        term_phase: (term_op_weight & 2) != 0,
        rotation_phase: (rotation_op_weight & 2) != 0,
        product_phase: (new_op_weight & 2) != 0,
        cross_phase: cross_phase_tot % 2 == 1,
    }
}

proof fn lemma_unpaired_monotone(op: Seq<u32>, k: nat, n: nat)
    requires
        k <= n,
    ensures
        unpaired(op, k) <= unpaired(op, n),
    decreases n,
{
    if k < n {
        lemma_unpaired_monotone(op, k, (n - 1) as nat);
    }
}

proof fn lemma_chunk_cross_zero(op: Seq<u32>, c: int, lim: nat)
    requires
        lim <= 32,
    ensures
        chunk_cross(op, 0u32, c, lim) == 0,
    decreases lim,
{
    if lim > 0 {
        lemma_chunk_cross_zero(op, c, (lim - 1) as nat);
        let b = (lim - 1) as u32;
        assert(!bit(0u32, b)) by (bit_vector)
            requires
                b < 32,
        ;
    }
}

} // verus!
