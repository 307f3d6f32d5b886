//! The passes and stages of the bitonic network, and their execution on the CPU.

use vstd::prelude::*;
use vstd::seq_lib::to_multiset_update;
use crate::kernel::{bitonic_kernel, step_defined, step_spec};
use crate::types::{BitonicParams, Pass, SortOrder, Stage, ThreadId, sort_order_code, order_of_code};

verus! {

/// Threads `0..t` of the pass `(stage, pass)` run one after another.
/// No two threads touch the same element, so this is also what the pass does
/// when all its threads run at once.
pub open spec fn apply_threads(
    s: Seq<u32>,
    t: nat,
    stage: u32,
    pass: u32,
    num_elements: u32,
    order: SortOrder,
) -> Seq<u32>
    decreases t,
{
    if t == 0 {
        s
    } else {
        step_spec(
            apply_threads(s, (t - 1) as nat, stage, pass, num_elements, order),
            (t - 1) as u32,
            stage,
            pass,
            num_elements,
            order,
        )
    }
}

/// Whether every thread of the pass described by `params` can run on a
/// buffer of length `len`.
pub open spec fn pass_defined(len: int, params: BitonicParams) -> bool {
    forall|tid: u32|
        #[trigger] step_defined(
            tid,
            len,
            params.stage.0,
            params.pass_of_stage.0,
            params.num_elements,
        )
}

/// The buffer after one complete pass of the kernel with `params`.
pub open spec fn pass_result(s: Seq<u32>, params: BitonicParams) -> Seq<u32> {
    apply_threads(
        s,
        params.num_elements as nat,
        params.stage.0,
        params.pass_of_stage.0,
        params.num_elements,
        order_of_code(params.sort_order),
    )
}

/// The parameter block of pass `pass` of stage `stage`.
pub open spec fn pass_params(num_elements: u32, stage: u32, pass: u32, order: SortOrder) -> BitonicParams {
    BitonicParams {
        num_elements,
        stage: Stage(stage),
        pass_of_stage: Pass(pass),
        sort_order: sort_order_code(order),
    }
}

/// Passes `0..p` of stage `stage`.
pub open spec fn stage_prefix(s: Seq<u32>, num_elements: u32, order: SortOrder, stage: u32, p: nat) -> Seq<u32>
    decreases p,
{
    if p == 0 {
        s
    } else {
        pass_result(
            stage_prefix(s, num_elements, order, stage, (p - 1) as nat),
            pass_params(num_elements, stage, (p - 1) as u32, order),
        )
    }
}

/// Stages `0..k` of the network, stage `t` being made of the passes `0..=t`.
pub open spec fn network(s: Seq<u32>, num_elements: u32, order: SortOrder, k: nat) -> Seq<u32>
    decreases k,
{
    if k == 0 {
        s
    } else {
        stage_prefix(
            network(s, num_elements, order, (k - 1) as nat),
            num_elements,
            order,
            (k - 1) as u32,
            k,
        )
    }
}

/// `floor(log2(n))`, and 0 for 0.
pub open spec fn log2_floor(n: nat) -> nat
    decreases n,
{
    if n < 2 {
        0
    } else {
        1 + log2_floor(n / 2)
    }
}

pub proof fn lemma_step_permutes(
    s: Seq<u32>,
    tid: u32,
    stage: u32,
    pass: u32,
    num_elements: u32,
    order: SortOrder,
)
    requires
        step_defined(tid, s.len() as int, stage, pass, num_elements),
    ensures
        step_spec(s, tid, stage, pass, num_elements, order).len() == s.len(),
        step_spec(s, tid, stage, pass, num_elements, order).to_multiset() =~= s.to_multiset(),
{
    if tid < num_elements {
        let partner = tid ^ (1u32 << ((stage - pass) as u32));
        if partner > tid && partner < num_elements {
            let a = s[tid as int];
            let b = s[partner as int];
            let s1 = s.update(tid as int, b);
            to_multiset_update(s, tid as int, b);
            assert(s1[partner as int] == b);
            to_multiset_update(s1, partner as int, a);
            broadcast use vstd::multiset::group_multiset_axioms;
            broadcast use vstd::seq_lib::to_multiset_contains;
            assert(s.contains(a));
            assert(s.contains(b));
            let m = s.to_multiset();
            assert(m.count(a) > 0);
            assert(m.count(b) > 0);
            assert(s1.update(partner as int, a).to_multiset() =~= m.insert(b).remove(a).insert(a).remove(b));
            assert(m.insert(b).remove(a).insert(a).remove(b) =~= m);
        }
    }
}

pub proof fn lemma_threads_permute(
    s: Seq<u32>,
    t: nat,
    stage: u32,
    pass: u32,
    num_elements: u32,
    order: SortOrder,
)
    requires
        forall|tid: u32| #[trigger] step_defined(tid, s.len() as int, stage, pass, num_elements),
    ensures
        apply_threads(s, t, stage, pass, num_elements, order).len() == s.len(),
        apply_threads(s, t, stage, pass, num_elements, order).to_multiset() =~= s.to_multiset(),
    decreases t,
{
    if t > 0 {
        lemma_threads_permute(s, (t - 1) as nat, stage, pass, num_elements, order);
        let prev = apply_threads(s, (t - 1) as nat, stage, pass, num_elements, order);
        assert(step_defined((t - 1) as u32, s.len() as int, stage, pass, num_elements));
        lemma_step_permutes(prev, (t - 1) as u32, stage, pass, num_elements, order);
    }
}

/// The threads of a pass over `num_elements` elements leave every element
/// at or beyond `num_elements` as it was.
pub proof fn lemma_threads_keep_tail(
    s: Seq<u32>,
    t: nat,
    stage: u32,
    pass: u32,
    num_elements: u32,
    order: SortOrder,
    i: int,
)
    requires
        forall|tid: u32| #[trigger] step_defined(tid, s.len() as int, stage, pass, num_elements),
        num_elements <= i < s.len(),
    ensures
        apply_threads(s, t, stage, pass, num_elements, order)[i] == s[i],
    decreases t,
{
    if t > 0 {
        lemma_threads_keep_tail(s, (t - 1) as nat, stage, pass, num_elements, order, i);
        lemma_threads_permute(s, (t - 1) as nat, stage, pass, num_elements, order);
    }
}

/// One pass of the kernel over `data`, its threads run one after another.
pub fn cpu_kernel_pass(data: &mut [u32], params: BitonicParams)
    requires
        pass_defined(old(data)@.len() as int, params),
    ensures
        final(data)@ == pass_result(old(data)@, params),
{
    let ghost order = order_of_code(params.sort_order);
    let n = params.num_elements;
    let mut tid: u32 = 0;
    while tid < n
        invariant
            tid <= n,
            n == params.num_elements,
            order == order_of_code(params.sort_order),
            pass_defined(old(data)@.len() as int, params),
            data@.len() == old(data)@.len(),
            data@ == apply_threads(
                old(data)@,
                tid as nat,
                params.stage.0,
                params.pass_of_stage.0,
                n,
                order,
            ),
        decreases n - tid,
    {
        proof {
            lemma_threads_permute(
                old(data)@,
                tid as nat,
                params.stage.0,
                params.pass_of_stage.0,
                n,
                order,
            );
            assert(step_defined(
                tid,
                old(data)@.len() as int,
                params.stage.0,
                params.pass_of_stage.0,
                n,
            ));
        }
        bitonic_kernel(ThreadId::new(tid), data, &params);
        tid = tid + 1;
    }
}

} // verus!
