//! The network sorts: every buffer of `2^k` elements comes out of the `k`
//! stages sorted in the requested order, holding the same elements.

use vstd::prelude::*;
use crate::bitfacts::{p2, run, lemma_single_run, lemma_bit_split};
use crate::kernel::step_defined;
use crate::network::{
    network, stage_prefix, pass_params, pass_defined, lemma_threads_permute,
};
use crate::parallel::{par_pass, par_stage, par_network, lemma_network_is_parallel, dir_of};
use crate::types::{SortOrder, sort_order_code, order_of_code};
use crate::zero_one::{zero_one, ordered, runs_ordered_at, lemma_network_01};

verus! {

/// `s` is sorted upwards for `Ascending` and downwards for `Descending`.
pub open spec fn sorted_by(s: Seq<u32>, order: SortOrder) -> bool {
    forall|i: int, j: int|
        #![trigger s[i], s[j]]
        0 <= i < j < s.len() ==> ordered(s[i], s[j], order == SortOrder::Ascending)
}

/// Which elements of `s` are at least `t`, as ones and zeros.
pub open spec fn threshold(s: Seq<u32>, t: u32) -> Seq<u32> {
    Seq::new(s.len(), |i: int| if s[i] >= t { 1u32 } else { 0u32 })
}

proof fn lemma_threshold_pass(s: Seq<u32>, stage: u32, e: u32, order: SortOrder, t: u32)
    requires
        s.len() <= u32::MAX,
        e < 31,
    ensures
        threshold(par_pass(s, stage, e, order), t) == par_pass(threshold(s, t), stage, e, order),
{
    let a = threshold(par_pass(s, stage, e, order), t);
    let b = par_pass(threshold(s, t), stage, e, order);
    let ts = threshold(s, t);
    assert forall|ii: int| 0 <= ii < s.len() implies a[ii] == b[ii] by {
        let i = ii as u32;
        let d = p2(e);
        let asc = dir_of(run(i, (stage + 1) as u32), order);
        lemma_bit_split(i, e);
        if i & d == 0 {
            if ii + d < s.len() {
                assert(ts[ii] == (if s[ii] >= t { 1u32 } else { 0u32 }));
                assert(ts[ii + d] == (if s[ii + d] >= t { 1u32 } else { 0u32 }));
            }
        } else {
            assert(ts[ii - d] == (if s[ii - d] >= t { 1u32 } else { 0u32 }));
        }
    }
    assert(a =~= b);
}

proof fn lemma_threshold_stage(s: Seq<u32>, stage: u32, p: nat, order: SortOrder, t: u32)
    requires
        s.len() <= u32::MAX,
        stage < 31,
        p <= stage + 1,
    ensures
        par_stage(s, stage, p, order).len() == s.len(),
        threshold(par_stage(s, stage, p, order), t) == par_stage(threshold(s, t), stage, p, order),
    decreases p,
{
    if p > 0 {
        lemma_threshold_stage(s, stage, (p - 1) as nat, order, t);
        assert(threshold(par_stage(s, stage, (p - 1) as nat, order), t).len() == s.len());
        lemma_threshold_pass(
            par_stage(s, stage, (p - 1) as nat, order),
            stage,
            (stage - (p - 1)) as u32,
            order,
            t,
        );
    }
}

proof fn lemma_threshold_network(s: Seq<u32>, k: nat, order: SortOrder, t: u32)
    requires
        s.len() <= u32::MAX,
        k <= 31,
    ensures
        par_network(s, k, order).len() == s.len(),
        threshold(par_network(s, k, order), t) == par_network(threshold(s, t), k, order),
    decreases k,
{
    if k > 0 {
        lemma_threshold_network(s, (k - 1) as nat, order, t);
        lemma_threshold_stage(par_network(s, (k - 1) as nat, order), (k - 1) as u32, k, order, t);
    }
}

/// Every thread of every pass of the network can run on a buffer of `n`
/// elements.
pub proof fn lemma_pass_params_defined(n: u32, stage: u32, pass: u32, order: SortOrder)
    requires
        pass <= stage < 31,
    ensures
        pass_defined(n as int, pass_params(n, stage, pass, order)),
{
    assert forall|tid: u32| #[trigger] step_defined(tid, n as int, stage, pass, n) by {}
}

proof fn lemma_stage_permutes(s: Seq<u32>, n: u32, order: SortOrder, stage: u32, p: nat)
    requires
        s.len() == n,
        stage < 31,
        p <= stage + 1,
    ensures
        stage_prefix(s, n, order, stage, p).len() == s.len(),
        stage_prefix(s, n, order, stage, p).to_multiset() == s.to_multiset(),
    decreases p,
{
    if p > 0 {
        lemma_stage_permutes(s, n, order, stage, (p - 1) as nat);
        let prev = stage_prefix(s, n, order, stage, (p - 1) as nat);
        let params = pass_params(n, stage, (p - 1) as u32, order);
        lemma_pass_params_defined(n, stage, (p - 1) as u32, order);
        assert(order_of_code(sort_order_code(order)) == order);
        lemma_threads_permute(prev, n as nat, stage, (p - 1) as u32, n, order);
    }
}

/// The network only moves elements around.
pub proof fn lemma_network_permutes(s: Seq<u32>, n: u32, order: SortOrder, k: nat)
    requires
        s.len() == n,
        k <= 31,
    ensures
        network(s, n, order, k).len() == s.len(),
        network(s, n, order, k).to_multiset() == s.to_multiset(),
    decreases k,
{
    if k > 0 {
        lemma_network_permutes(s, n, order, (k - 1) as nat);
        lemma_stage_permutes(network(s, n, order, (k - 1) as nat), n, order, (k - 1) as u32, k);
    }
}

/// The `k` stages of the network sort every buffer of `2^k` elements in the
/// requested order and keep its elements.
pub proof fn lemma_network_sorts(s: Seq<u32>, k: u32, order: SortOrder)
    requires
        k < 32,
        s.len() == p2(k),
    ensures
        sorted_by(network(s, s.len() as u32, order, k as nat), order),
        network(s, s.len() as u32, order, k as nat).to_multiset() == s.to_multiset(),
        network(s, s.len() as u32, order, k as nat).len() == s.len(),
{
    lemma_network_permutes(s, s.len() as u32, order, k as nat);
    lemma_network_is_parallel(s, k as nat, order);
    let out = par_network(s, k as nat, order);
    let asc = order == SortOrder::Ascending;
    assert forall|i: int, j: int| #![trigger out[i], out[j]] 0 <= i < j < out.len() implies ordered(
        out[i],
        out[j],
        asc,
    ) by {
        let t = if asc { out[i] } else { out[j] };
        let b = threshold(s, t);
        assert(zero_one(b));
        lemma_threshold_network(s, k as nat, order, t);
        lemma_network_01(b, k, order, k as nat);
        let bo = par_network(b, k as nat, order);
        lemma_single_run(i as u32, k);
        lemma_single_run(j as u32, k);
        assert(runs_ordered_at(bo, k, 0, order, i as u32, j as u32));
        assert(dir_of(0, order) == asc);
        assert(bo[i] == threshold(out, t)[i]);
        assert(bo[j] == threshold(out, t)[j]);
    }
}

} // verus!
