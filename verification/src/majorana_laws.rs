//! What the Majorana step computes, said of the Majorana operators
//! themselves. Operator `p` of a string stored in 32-bit chunks is present
//! when bit `p % 32` of chunk `p / 32` is set; fermionic mode `k` is made of
//! operators `2k` and `2k + 1`.

use vstd::prelude::*;
use crate::majorana::{
    EVEN_BITS_MASK, popcount, bit, low_mask, unpaired, weight, overlap, commutes, bits_before,
    chunk_cross, cross, product, with_product, term_op,
};

verus! {

/// Majorana operator `p` is present in the string `op`.
pub open spec fn present(op: Seq<u32>, p: int) -> bool {
    bit(op[p / 32], (p % 32) as u32)
}

/// Number of operators among `0..m` present in `op`.
pub open spec fn count_present(op: Seq<u32>, m: nat) -> nat
    decreases m,
{
    if m == 0 {
        0
    } else {
        count_present(op, (m - 1) as nat) + if present(op, m - 1) {
            1nat
        } else {
            0nat
        }
    }
}

/// Number of operators among `0..m` present in both `a` and `b`.
pub open spec fn count_common(a: Seq<u32>, b: Seq<u32>, m: nat) -> nat
    decreases m,
{
    if m == 0 {
        0
    } else {
        count_common(a, b, (m - 1) as nat) + if present(a, m - 1) && present(b, m - 1) {
            1nat
        } else {
            0nat
        }
    }
}

/// Number of fermionic modes among `0..m` whose two operators are not both
/// present or both absent in `op`.
pub open spec fn count_unpaired_modes(op: Seq<u32>, m: nat) -> nat
    decreases m,
{
    if m == 0 {
        0
    } else {
        count_unpaired_modes(op, (m - 1) as nat) + if present(op, 2 * (m - 1)) != present(
            op,
            2 * (m - 1) + 1,
        ) {
            1nat
        } else {
            0nat
        }
    }
}

/// Number of pairs of an operator `j < m` of `rot` and an operator `i < j`
/// of `op`: the transpositions that move `rot`'s operators past `op`'s.
pub open spec fn pairs_before(op: Seq<u32>, rot: Seq<u32>, m: nat) -> nat
    decreases m,
{
    if m == 0 {
        0
    } else {
        pairs_before(op, rot, (m - 1) as nat) + if present(rot, m - 1) {
            count_present(op, (m - 1) as nat)
        } else {
            0nat
        }
    }
}

/// Number of bits below `lim` set in `x`.
pub open spec fn count_bits(x: u32, lim: nat) -> nat
    decreases lim,
{
    if lim == 0 {
        0
    } else {
        count_bits(x, (lim - 1) as nat) + if bit(x, (lim - 1) as u32) {
            1nat
        } else {
            0nat
        }
    }
}

proof fn lemma_bits_of_ops(x: u32, y: u32, k: u32, j: u32)
    requires
        k < 32,
        j < 32,
    ensures
        bit(x & y, k) == (bit(x, k) && bit(y, k)),
        bit(x ^ y, k) == (bit(x, k) != bit(y, k)),
        bit(x, 0) == (x % 2 == 1),
        k < 31 ==> bit(x, (k + 1) as u32) == bit(x / 2, k),
        bit(low_mask(k) & x, j) == (j < k && bit(x, j)),
{
    assert(bit(x & y, k) == (bit(x, k) && bit(y, k)) && bit(x ^ y, k) == (bit(x, k) != bit(y, k))
        && bit(x, 0) == (x % 2 == 1)) by (bit_vector)
        requires
            k < 32,
    ;
    assert(k < 31 ==> bit(x, (k + 1) as u32) == bit(x / 2, k)) by (bit_vector)
        requires
            k < 32,
    ;
    assert(bit(low_mask(k) & x, j) == (j < k && bit(x, j))) by (bit_vector)
        requires
            k < 32,
            j < 32,
    ;
}

proof fn lemma_bits_of_pairs(x: u32, k: u32)
    requires
        k < 31,
        k % 2 == 0,
    ensures
        bit(((x >> 1u32) ^ x) & EVEN_BITS_MASK, k) == (bit(x, k) != bit(x, (k + 1) as u32)),
        !bit(((x >> 1u32) ^ x) & EVEN_BITS_MASK, (k + 1) as u32),
{
    assert(bit(((x >> 1u32) ^ x) & 0x55555555u32, k) == (bit(x, k) != bit(x, (k + 1) as u32))
        && !bit(((x >> 1u32) ^ x) & 0x55555555u32, (k + 1) as u32)) by (bit_vector)
        requires
            k < 31,
            k % 2 == 0,
    ;
}

proof fn lemma_count_bits_shift(x: u32, k: nat)
    requires
        k <= 31,
    ensures
        count_bits(x, k + 1) == (if bit(x, 0) {
            1nat
        } else {
            0nat
        }) + count_bits(x / 2, k),
    decreases k,
{
    if k > 0 {
        lemma_count_bits_shift(x, (k - 1) as nat);
        lemma_bits_of_ops(x, x, (k - 1) as u32, 0);
        assert(bit(x, k as u32) == bit(x / 2, (k - 1) as u32));
        assert(count_bits(x, k + 1) == count_bits(x, k) + if bit(x, k as u32) {
            1nat
        } else {
            0nat
        });
        assert(count_bits(x / 2, k) == count_bits(x / 2, (k - 1) as nat) + if bit(
            x / 2,
            (k - 1) as u32,
        ) {
            1nat
        } else {
            0nat
        });
    } else {
        assert(count_bits(x, 1) == count_bits(x, 0) + if bit(x, 0) {
            1nat
        } else {
            0nat
        });
        assert(count_bits(x / 2, 0) == 0);
    }
}

proof fn lemma_popcount_low(x: u32, k: u32)
    requires
        k <= 31,
        x >> k == 0,
    ensures
        popcount(x as nat) == count_bits(x, k as nat),
    decreases k,
{
    lemma_bits_of_ops(x, x, 0, 0);
    if k == 0 {
        assert(x == 0) by (bit_vector)
            requires
                x >> 0u32 == 0,
        ;
    } else {
        assert((x / 2) >> ((k - 1) as u32) == 0) by (bit_vector)
            requires
                1 <= k <= 31,
                x >> k == 0,
        ;
        lemma_popcount_low(x / 2, (k - 1) as u32);
        lemma_count_bits_shift(x, (k - 1) as nat);
    }
}

/// `popcount` counts the set bits of a word.
pub proof fn lemma_popcount_bits(x: u32)
    ensures
        popcount(x as nat) == count_bits(x, 32),
{
    assert((x / 2) >> 31u32 == 0) by (bit_vector);
    lemma_popcount_low(x / 2, 31);
    lemma_count_bits_shift(x, 31);
    lemma_bits_of_ops(x, x, 0, 0);
}

proof fn lemma_low_mask_bits(x: u32, b: u32, lim: nat)
    requires
        b < 32,
        lim <= 32,
    ensures
        count_bits(low_mask(b) & x, lim) == count_bits(x, if lim < b {
            lim
        } else {
            b as nat
        }),
    decreases lim,
{
    if lim > 0 {
        lemma_low_mask_bits(x, b, (lim - 1) as nat);
        lemma_bits_of_ops(x, x, b, (lim - 1) as u32);
    }
}

/// The operators of chunk `c` below bit `b` come right after those of the
/// chunks before it.
proof fn lemma_chunk_prefix(op: Seq<u32>, c: nat, b: nat)
    requires
        c < op.len(),
        b <= 32,
        count_present(op, 32 * c) == weight(op, c),
    ensures
        count_present(op, 32 * c + b) == weight(op, c) + count_bits(op[c as int], b),
    decreases b,
{
    if b > 0 {
        lemma_chunk_prefix(op, c, (b - 1) as nat);
        let p = 32 * c + b - 1;
        assert(p / 32 == c && p % 32 == b - 1);
    }
}

/// The weight of the first `n` chunks is the number of operators present
/// among the first `32 * n`.
pub proof fn lemma_weight_counts(op: Seq<u32>, n: nat)
    requires
        n <= op.len(),
    ensures
        weight(op, n) == count_present(op, 32 * n),
    decreases n,
{
    if n > 0 {
        lemma_weight_counts(op, (n - 1) as nat);
        lemma_chunk_prefix(op, (n - 1) as nat, 32);
        lemma_popcount_bits(op[n - 1]);
        assert(32 * (n - 1) + 32 == 32 * n);
    }
}

/// Commutation of Majorana strings: `A B = (-1)^(|A| |B| + |A ∩ B|) B A`, so
/// two strings commute exactly when the product of their sizes plus the
/// number of operators they share is even.
pub proof fn lemma_commutes_law(op: Seq<u32>, rot: Seq<u32>, n: nat)
    requires
        n <= op.len(),
        n <= rot.len(),
    ensures
        commutes(op, rot, n) == ((count_present(op, 32 * n) * count_present(rot, 32 * n)
            + count_common(op, rot, 32 * n)) % 2 == 0),
{
    lemma_weight_counts(op, n);
    lemma_weight_counts(rot, n);
    let ands = Seq::new(n, |i: int| op[i] & rot[i]);
    lemma_overlap_is_weight(op, rot, ands, n);
    lemma_weight_counts(ands, n);
    lemma_common_counts(op, rot, ands, n, 32 * n);
}

proof fn lemma_overlap_is_weight(op: Seq<u32>, rot: Seq<u32>, ands: Seq<u32>, k: nat)
    requires
        k <= ands.len(),
        forall|i: int| 0 <= i < ands.len() ==> #[trigger] ands[i] == op[i] & rot[i],
    ensures
        overlap(op, rot, k) == weight(ands, k),
    decreases k,
{
    if k > 0 {
        lemma_overlap_is_weight(op, rot, ands, (k - 1) as nat);
    }
}

proof fn lemma_common_counts(op: Seq<u32>, rot: Seq<u32>, ands: Seq<u32>, n: nat, m: nat)
    requires
        m <= 32 * n,
        ands.len() == n,
        forall|i: int| 0 <= i < ands.len() ==> #[trigger] ands[i] == op[i] & rot[i],
    ensures
        count_common(op, rot, m) == count_present(ands, m),
    decreases m,
{
    if m > 0 {
        lemma_common_counts(op, rot, ands, n, (m - 1) as nat);
        let p = m - 1;
        lemma_bits_of_ops(op[p / 32], rot[p / 32], (p % 32) as u32, 0);
    }
}

/// The unpaired count is the number of fermionic modes whose two operators
/// are not both present or both absent.
pub proof fn lemma_unpaired_law(op: Seq<u32>, n: nat)
    requires
        n <= op.len(),
    ensures
        unpaired(op, n) == count_unpaired_modes(op, 16 * n),
{
    let ys = Seq::new(n, |i: int| ((op[i] >> 1u32) ^ op[i]) & EVEN_BITS_MASK);
    lemma_unpaired_is_weight(op, ys, n);
    lemma_weight_counts(ys, n);
    lemma_modes_count(op, ys, n, 16 * n);
    assert(2 * (16 * n) == 32 * n);
}

proof fn lemma_unpaired_is_weight(op: Seq<u32>, ys: Seq<u32>, k: nat)
    requires
        k <= ys.len(),
        forall|i: int|
            0 <= i < ys.len() ==> #[trigger] ys[i] == ((op[i] >> 1u32) ^ op[i]) & EVEN_BITS_MASK,
    ensures
        unpaired(op, k) == weight(ys, k),
    decreases k,
{
    if k > 0 {
        lemma_unpaired_is_weight(op, ys, (k - 1) as nat);
    }
}

#[verifier::rlimit(40)]
proof fn lemma_modes_count(op: Seq<u32>, ys: Seq<u32>, n: nat, m: nat)
    requires
        m <= 16 * n,
        ys.len() == n,
        forall|i: int|
            0 <= i < ys.len() ==> #[trigger] ys[i] == ((op[i] >> 1u32) ^ op[i]) & EVEN_BITS_MASK,
    ensures
        count_present(ys, 2 * m) == count_unpaired_modes(op, m),
    decreases m,
{
    if m > 0 {
        lemma_modes_count(op, ys, n, (m - 1) as nat);
        let p = 2 * (m - 1);
        let c = p / 32;
        let e = p % 32;
        assert((p + 1) / 32 == c && (p + 1) % 32 == e + 1 && e % 2 == 0);
        lemma_bits_of_pairs(op[c], e as u32);
        assert(2 * m == p + 2);
        assert(count_present(ys, (p + 2) as nat) == count_present(ys, (p + 1) as nat) + if present(
            ys,
            p + 1,
        ) {
            1nat
        } else {
            0nat
        });
    }
}

/// The product of two strings holds an operator exactly when one factor
/// but not the other holds it (`gamma_k^2 = 1`), and the rotation step
/// writes that product after the term.
pub proof fn lemma_product_law(s: Seq<u32>, start: int, n: nat, rot: Seq<u32>, p: int)
    requires
        0 <= start,
        start + 4 + 2 * n <= s.len(),
        n <= rot.len(),
        0 <= p,
    ensures
        p < 32 * n ==> present(product(term_op(s, start, n), rot, n), p) == (present(
            term_op(s, start, n),
            p,
        ) != present(rot, p)),
        with_product(s, start, n, rot).subrange(start + 4 + n, start + 4 + 2 * n) == product(
            term_op(s, start, n),
            rot,
            n,
        ),
{
    let op = term_op(s, start, n);
    if p < 32 * n {
        lemma_bits_of_ops(op[p / 32], rot[p / 32], (p % 32) as u32, 0);
    }
    assert(with_product(s, start, n, rot).subrange(start + 4 + n, start + 4 + 2 * n) =~= product(
        op,
        rot,
        n,
    ));
}

/// `bits_before(op, c, b)` is the number of operators of `op` that come
/// before operator `32 c + b`.
pub proof fn lemma_bits_before_law(op: Seq<u32>, c: nat, b: u32)
    requires
        c < op.len(),
        b < 32,
    ensures
        bits_before(op, c as int, b) == count_present(op, 32 * c + b as nat),
{
    lemma_weight_counts(op, c);
    lemma_chunk_prefix(op, c, b as nat);
    lemma_popcount_bits(low_mask(b) & op[c as int]);
    lemma_low_mask_bits(op[c as int], b, 32);
}

proof fn lemma_chunk_cross_pairs(op: Seq<u32>, rot: Seq<u32>, c: nat, lim: nat)
    requires
        c < op.len(),
        c < rot.len(),
        lim <= 32,
    ensures
        pairs_before(op, rot, 32 * c + lim) == pairs_before(op, rot, 32 * c) + chunk_cross(
            op,
            rot[c as int],
            c as int,
            lim,
        ),
    decreases lim,
{
    if lim > 0 {
        lemma_chunk_cross_pairs(op, rot, c, (lim - 1) as nat);
        let b = (lim - 1) as u32;
        lemma_bits_before_law(op, c, b);
        let p = 32 * c + b;
        assert(p / 32 == c && p % 32 == b);
    }
}

/// The cross count is the number of pairs of a rotation operator and a term
/// operator with a smaller index: the sign of moving the rotation past the term.
pub proof fn lemma_cross_law(op: Seq<u32>, rot: Seq<u32>, n: nat)
    requires
        n <= op.len(),
        n <= rot.len(),
    ensures
        cross(op, rot, n) == pairs_before(op, rot, 32 * n),
    decreases n,
{
    if n > 0 {
        lemma_cross_law(op, rot, (n - 1) as nat);
        lemma_chunk_cross_pairs(op, rot, (n - 1) as nat, 32);
        assert(32 * (n - 1) + 32 == 32 * n);
    }
}

} // verus!
