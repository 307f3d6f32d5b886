//! What a complete sort computes: the keys are padded with a sentinel to a
//! power of two, sorted by the network, and cut back to their number.

use vstd::prelude::*;
use vstd::arithmetic::power2::{lemma2_to64, lemma_pow2_strictly_increases};
use vstd::seq_lib::{lemma_multiset_commutative, to_multiset_build};
use crate::bitfacts::p2;
use crate::keys::{SortableKey, i32_key, lemma_i32_key_order, lemma_i32_key_roundtrip};
use crate::network::{network, log2_floor};
use crate::sizes::{ceil_log2, next_pow2, lemma_ceil_log2, lemma_log2_floor_pow2, lemma_p2_is_pow2};
use crate::sortedness::{sorted_by, lemma_network_sorts};
use crate::types::SortOrder;
use crate::zero_one::ordered;

verus! {

/// The value that fills the padding: the largest key for an ascending sort,
/// the smallest for a descending one, so that the padding sorts last.
pub open spec fn sentinel(order: SortOrder) -> u32 {
    match order {
        SortOrder::Ascending => u32::MAX,
        SortOrder::Descending => u32::MIN,
    }
}

/// `keys` followed by sentinels up to the next power of two.
pub open spec fn pad_keys(keys: Seq<u32>, order: SortOrder) -> Seq<u32> {
    keys + Seq::new((next_pow2(keys.len()) - keys.len()) as nat, |i: int| sentinel(order))
}

/// The buffer after all the stages that the runner launches for its length.
pub open spec fn run_stages_spec(s: Seq<u32>, order: SortOrder) -> Seq<u32> {
    network(s, s.len() as u32, order, log2_floor((s.len() as u32) as nat))
}

/// The keys as a sort leaves them.
pub open spec fn sorted_keys(keys: Seq<u32>, order: SortOrder) -> Seq<u32> {
    run_stages_spec(pad_keys(keys, order), order).subrange(0, keys.len() as int)
}

/// The keys of a sequence of elements.
pub open spec fn keys_of<T: SortableKey>(s: Seq<T>) -> Seq<u32> {
    Seq::new(s.len(), |i: int| s[i].key())
}

/// The elements as a sort leaves them: one element or none stay as they
/// are; otherwise each position gets the element recovered from its sorted key.
pub open spec fn sort_spec<T: SortableKey>(s: Seq<T>, order: SortOrder) -> Seq<T> {
    if s.len() <= 1 {
        s
    } else {
        let k = sorted_keys(keys_of(s), order);
        Seq::new(s.len(), |i: int| T::from_key(k[i]))
    }
}

proof fn lemma_const_seq_count(q: nat, v: u32, w: u32)
    ensures
        Seq::new(q, |i: int| v).to_multiset().count(w) == if w == v {
            q
        } else {
            0
        },
    decreases q,
{
    broadcast use vstd::multiset::group_multiset_axioms;
    if q == 0 {
        assert(Seq::new(q, |i: int| v) =~= Seq::<u32>::empty());
        vstd::seq_lib::to_multiset_len(Seq::new(q, |i: int| v));
        vstd::multiset::axiom_count_le_len(Seq::new(q, |i: int| v).to_multiset(), w);
    } else {
        lemma_const_seq_count((q - 1) as nat, v, w);
        assert(Seq::new(q, |i: int| v) =~= Seq::new((q - 1) as nat, |i: int| v).push(v));
        to_multiset_build(Seq::new((q - 1) as nat, |i: int| v), v);
    }
}

/// Sorting the padded keys and cutting off the padding leaves the keys'
/// elements, sorted.
proof fn lemma_cut_padding(keys: Seq<u32>, out: Seq<u32>, order: SortOrder)
    requires
        sorted_by(out, order),
        out.len() >= keys.len(),
        out.to_multiset() == pad_keys(keys, order).to_multiset(),
        out.len() == pad_keys(keys, order).len(),
    ensures
        out.subrange(0, keys.len() as int).to_multiset() == keys.to_multiset(),
{
    broadcast use vstd::multiset::group_multiset_axioms;
    broadcast use vstd::seq_lib::to_multiset_contains;
    let n = keys.len();
    let big = out.len();
    let q = (big - n) as nat;
    let v = sentinel(order);
    let pads = Seq::new(q, |i: int| v);
    let asc = order == SortOrder::Ascending;
    lemma_multiset_commutative(keys, pads);
    assert(pad_keys(keys, order) =~= keys + pads);
    lemma_const_seq_count(q, v, v);
    assert(out.to_multiset().count(v) == keys.to_multiset().count(v) + q);
    assert forall|j: int| n <= j < big implies out[j] == v by {
        if out[j] != v {
            let pre = out.subrange(0, j + 1);
            let post = out.subrange(j + 1, big as int);
            assert(out =~= pre + post);
            lemma_multiset_commutative(pre, post);
            assert forall|i: int| 0 <= i < pre.len() implies pre[i] != v by {
                if i < j {
                    assert(ordered(out[i], out[j], asc));
                }
            }
            assert(!pre.contains(v));
            assert(pre.to_multiset().count(v) == 0);
            vstd::multiset::axiom_count_le_len(post.to_multiset(), v);
            vstd::seq_lib::to_multiset_len(post);
            assert(out.to_multiset().count(v) == pre.to_multiset().count(v) + post.to_multiset().count(v));
            assert(post.to_multiset().count(v) <= big - j - 1);
            assert(false);
        }
    }
    let pre = out.subrange(0, n as int);
    let post = out.subrange(n as int, big as int);
    assert(post =~= pads);
    assert(out =~= pre + post);
    lemma_multiset_commutative(pre, post);
    assert forall|w: u32| #[trigger] pre.to_multiset().count(w) == keys.to_multiset().count(w) by {
        lemma_const_seq_count(q, v, w);
        assert(out.to_multiset().count(w) == pre.to_multiset().count(w) + post.to_multiset().count(w));
        assert(out.to_multiset().count(w) == keys.to_multiset().count(w) + pads.to_multiset().count(w));
    }
    assert(pre.to_multiset() =~= keys.to_multiset());
}

/// `next_pow2(n)` is `p2(c)` with `c <= 31` for `n <= 2^31`.
proof fn lemma_padded_len(n: nat)
    requires
        n <= 0x8000_0000,
    ensures
        ceil_log2(n) <= 31,
        next_pow2(n) == p2(ceil_log2(n) as u32),
        next_pow2(n) >= n,
        next_pow2(n) <= 0x8000_0000,
{
    lemma2_to64();
    lemma_ceil_log2(n);
    let c = ceil_log2(n);
    if c > 31 {
        if 31 < (c - 1) as nat {
            lemma_pow2_strictly_increases(31, (c - 1) as nat);
        }
    }
    lemma_p2_is_pow2(c as u32);
    if c < 31 {
        lemma_pow2_strictly_increases(c, 31);
    }
}

/// A sort leaves the keys sorted in the requested order, holding the same
/// keys as before.
pub proof fn lemma_sorted_keys(keys: Seq<u32>, order: SortOrder)
    requires
        keys.len() <= 0x8000_0000,
    ensures
        sorted_keys(keys, order).len() == keys.len(),
        sorted_by(sorted_keys(keys, order), order),
        sorted_keys(keys, order).to_multiset() == keys.to_multiset(),
{
    let padded = pad_keys(keys, order);
    lemma_padded_len(keys.len());
    let c = ceil_log2(keys.len());
    assert(padded.len() == next_pow2(keys.len()));
    lemma_log2_floor_pow2(c);
    lemma_p2_is_pow2(c as u32);
    lemma_network_sorts(padded, c as u32, order);
    let out = run_stages_spec(padded, order);
    assert(out == network(padded, padded.len() as u32, order, c as nat));
    lemma_cut_padding(keys, out, order);
    let res = sorted_keys(keys, order);
    assert forall|i: int, j: int| #![trigger res[i], res[j]] 0 <= i < j < res.len() implies ordered(
        res[i],
        res[j],
        order == SortOrder::Ascending,
    ) by {
        assert(res[i] == out[i] && res[j] == out[j]);
    }
}

/// Sorting `u32` values leaves them sorted in the requested order, and
/// holding the same values.
pub proof fn lemma_sort_u32(s: Seq<u32>, order: SortOrder)
    requires
        s.len() <= 0x8000_0000,
    ensures
        sort_spec(s, order).len() == s.len(),
        sorted_by(sort_spec(s, order), order),
        sort_spec(s, order).to_multiset() == s.to_multiset(),
{
    if s.len() > 1 {
        assert(keys_of(s) =~= s);
        lemma_sorted_keys(s, order);
        assert(sort_spec(s, order) =~= sorted_keys(s, order));
    }
}

/// Sorting `i32` values leaves them sorted in the requested order, and
/// their keys are those of the values before the sort.
pub proof fn lemma_sort_i32(s: Seq<i32>, order: SortOrder)
    requires
        s.len() <= 0x8000_0000,
    ensures
        sort_spec(s, order).len() == s.len(),
        forall|i: int, j: int|
            #![trigger sort_spec(s, order)[i], sort_spec(s, order)[j]]
            0 <= i < j < s.len() ==> if order == SortOrder::Ascending {
                sort_spec(s, order)[i] <= sort_spec(s, order)[j]
            } else {
                sort_spec(s, order)[i] >= sort_spec(s, order)[j]
            },
        keys_of(sort_spec(s, order)).to_multiset() == keys_of(s).to_multiset(),
{
    if s.len() > 1 {
        let k = sorted_keys(keys_of(s), order);
        lemma_sorted_keys(keys_of(s), order);
        let out = sort_spec(s, order);
        assert forall|i: int| 0 <= i < s.len() implies #[trigger] i32_key(out[i]) == k[i] by {
            lemma_i32_key_roundtrip(0, k[i]);
        }
        assert(keys_of(out) =~= k);
        assert forall|i: int, j: int| #![trigger out[i], out[j]] 0 <= i < j < s.len() implies if order
            == SortOrder::Ascending {
            out[i] <= out[j]
        } else {
            out[i] >= out[j]
        } by {
            assert(ordered(k[i], k[j], order == SortOrder::Ascending));
            lemma_i32_key_order(out[i], out[j]);
            lemma_i32_key_roundtrip(0, k[i]);
            lemma_i32_key_roundtrip(0, k[j]);
        }
    }
}

} // verus!
