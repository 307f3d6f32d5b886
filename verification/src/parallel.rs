//! A pass of the network described element by element, as all its threads
//! computing at once, and its agreement with the kernel's threads run in turn.

use vstd::prelude::*;
use crate::bitfacts::{p2, run, lemma_bit_split, lemma_partner_up, lemma_block_index};
use crate::kernel::{block_ascending, step_spec};
use crate::network::{apply_threads, pass_result, pass_params, stage_prefix, network};
use crate::types::{SortOrder, sort_order_code, order_of_code};

verus! {

/// The value that the lower member of a compared pair receives.
pub open spec fn low_out(a: u32, b: u32, asc: bool) -> u32 {
    if asc {
        if a <= b { a } else { b }
    } else {
        if a >= b { a } else { b }
    }
}

/// The value that the upper member of a compared pair receives.
pub open spec fn high_out(a: u32, b: u32, asc: bool) -> u32 {
    if asc {
        if a <= b { b } else { a }
    } else {
        if a >= b { b } else { a }
    }
}

/// Whether block `w` of a stage is sorted upwards.
pub open spec fn dir_of(w: u32, order: SortOrder) -> bool {
    (w % 2 == 0) == (order == SortOrder::Ascending)
}

/// The pass of stage `stage` whose pairs are `2^e` apart, element by element.
pub open spec fn par_pass(s: Seq<u32>, stage: u32, e: u32, order: SortOrder) -> Seq<u32> {
    Seq::new(
        s.len(),
        |ii: int|
            {
                let i = ii as u32;
                let d = p2(e);
                let asc = dir_of(run(i, (stage + 1) as u32), order);
                if i & d == 0 {
                    if ii + d < s.len() {
                        low_out(s[ii], s[ii + d], asc)
                    } else {
                        s[ii]
                    }
                } else {
                    high_out(s[ii - d], s[ii], asc)
                }
            },
    )
}

/// The thread that handles element `i` in a pass whose pairs are `2^e` apart.
pub open spec fn owner(i: u32, e: u32) -> u32 {
    if i & p2(e) == 0 {
        i
    } else {
        (i - p2(e)) as u32
    }
}

proof fn lemma_threads_closed_step(
    s: Seq<u32>,
    t: nat,
    stage: u32,
    pass: u32,
    order: SortOrder,
)
    requires
        s.len() <= u32::MAX,
        pass <= stage < 31,
        t < s.len(),
        apply_threads(s, t, stage, pass, s.len() as u32, order).len() == s.len(),
        forall|i: u32|
            i < s.len() ==> #[trigger] apply_threads(s, t, stage, pass, s.len() as u32, order)[i as int]
                == if owner(i, (stage - pass) as u32) < t {
                par_pass(s, stage, (stage - pass) as u32, order)[i as int]
            } else {
                s[i as int]
            },
    ensures
        apply_threads(s, t + 1, stage, pass, s.len() as u32, order).len() == s.len(),
        forall|i: u32|
            i < s.len() ==> #[trigger] apply_threads(s, t + 1, stage, pass, s.len() as u32, order)[i as int]
                == if owner(i, (stage - pass) as u32) < t + 1 {
                par_pass(s, stage, (stage - pass) as u32, order)[i as int]
            } else {
                s[i as int]
            },
{
    let n = s.len() as u32;
    let e = (stage - pass) as u32;
    let d = p2(e);
    let tid = t as u32;
    let prev = apply_threads(s, t, stage, pass, n, order);
    let next = apply_threads(s, t + 1, stage, pass, n, order);
    let par = par_pass(s, stage, e, order);
    assert(next == step_spec(prev, tid, stage, pass, n, order));
    lemma_bit_split(tid, e);
    lemma_block_index(tid, stage);
    assert(block_ascending(tid, stage, order) == dir_of(run(tid, (stage + 1) as u32), order));
    if tid & d == 0 {
        lemma_partner_up(tid, e, stage);
        let p = (tid + d) as u32;
        lemma_bit_split(p, e);
        assert(tid ^ (1u32 << e) == p);
        if p < n {
            assert(owner(p, e) == tid);
            assert(prev[tid as int] == s[tid as int]);
            assert(prev[p as int] == s[p as int]);
        }
        assert forall|i: u32| i < s.len() implies #[trigger] next[i as int] == if owner(i, e) < t
            + 1 {
            par[i as int]
        } else {
            s[i as int]
        } by {
            lemma_bit_split(i, e);
            if i != tid && i != p {
                assert(next[i as int] == prev[i as int]);
                if owner(i, e) == tid {
                    assert(i & d != 0);
                    assert(i == p);
                }
            }
        }
    } else {
        assert(tid ^ (1u32 << e) == tid - d);
        assert(next == prev);
        assert forall|i: u32| i < s.len() implies #[trigger] next[i as int] == if owner(i, e) < t
            + 1 {
            par[i as int]
        } else {
            s[i as int]
        } by {
            lemma_bit_split(i, e);
            if owner(i, e) == tid {
                if i & d == 0 {
                    assert(i == tid);
                } else {
                    assert(((i - d) as u32) & d == 0);
                }
            }
        }
    }
}

/// Running the threads `0..t` leaves every element that a later thread owns
/// as it was, and gives every other one its value in `par_pass`.
proof fn lemma_threads_closed(s: Seq<u32>, t: nat, stage: u32, pass: u32, order: SortOrder)
    requires
        s.len() <= u32::MAX,
        pass <= stage < 31,
        t <= s.len(),
    ensures
        apply_threads(s, t, stage, pass, s.len() as u32, order).len() == s.len(),
        forall|i: u32|
            i < s.len() ==> #[trigger] apply_threads(s, t, stage, pass, s.len() as u32, order)[i as int]
                == if owner(i, (stage - pass) as u32) < t {
                par_pass(s, stage, (stage - pass) as u32, order)[i as int]
            } else {
                s[i as int]
            },
    decreases t,
{
    if t > 0 {
        lemma_threads_closed(s, (t - 1) as nat, stage, pass, order);
        lemma_threads_closed_step(s, (t - 1) as nat, stage, pass, order);
    }
}

/// A complete pass over the whole buffer is `par_pass`.
pub proof fn lemma_pass_is_parallel(s: Seq<u32>, stage: u32, pass: u32, order: SortOrder)
    requires
        s.len() <= u32::MAX,
        pass <= stage < 31,
    ensures
        pass_result(s, pass_params(s.len() as u32, stage, pass, order)) == par_pass(
            s,
            stage,
            (stage - pass) as u32,
            order,
        ),
{
    let n = s.len() as u32;
    let e = (stage - pass) as u32;
    assert(order_of_code(sort_order_code(order)) == order);
    lemma_threads_closed(s, s.len(), stage, pass, order);
    let a = apply_threads(s, s.len(), stage, pass, n, order);
    let par = par_pass(s, stage, e, order);
    assert forall|ii: int| 0 <= ii < s.len() implies a[ii] == par[ii] by {
        let i = ii as u32;
        lemma_bit_split(i, e);
        assert(a[i as int] == par[i as int]);
    }
    assert(a =~= par);
}

/// Passes `0..p` of stage `s`, element by element.
pub open spec fn par_stage(b: Seq<u32>, s: u32, p: nat, order: SortOrder) -> Seq<u32>
    decreases p,
{
    if p == 0 {
        b
    } else {
        par_pass(par_stage(b, s, (p - 1) as nat, order), s, (s - (p - 1)) as u32, order)
    }
}

/// Stages `0..k` of the network, element by element.
pub open spec fn par_network(b: Seq<u32>, k: nat, order: SortOrder) -> Seq<u32>
    decreases k,
{
    if k == 0 {
        b
    } else {
        par_stage(par_network(b, (k - 1) as nat, order), (k - 1) as u32, k, order)
    }
}

proof fn lemma_stage_is_parallel(s: Seq<u32>, stage: u32, p: nat, order: SortOrder)
    requires
        s.len() <= u32::MAX,
        stage < 31,
        p <= stage + 1,
    ensures
        stage_prefix(s, s.len() as u32, order, stage, p) == par_stage(s, stage, p, order),
        par_stage(s, stage, p, order).len() == s.len(),
    decreases p,
{
    if p > 0 {
        lemma_stage_is_parallel(s, stage, (p - 1) as nat, order);
        let prev = par_stage(s, stage, (p - 1) as nat, order);
        lemma_pass_is_parallel(prev, stage, (p - 1) as u32, order);
    }
}

/// The stages of the network that the kernel runs agree with `par_network`.
pub proof fn lemma_network_is_parallel(s: Seq<u32>, k: nat, order: SortOrder)
    requires
        s.len() <= u32::MAX,
        k <= 31,
    ensures
        network(s, s.len() as u32, order, k) == par_network(s, k, order),
        par_network(s, k, order).len() == s.len(),
    decreases k,
{
    if k > 0 {
        lemma_network_is_parallel(s, (k - 1) as nat, order);
        let prev = par_network(s, (k - 1) as nat, order);
        lemma_stage_is_parallel(prev, (k - 1) as u32, k, order);
    }
}

} // verus!
