//! The network on sequences of zeros and ones: within a run, the ones form a
//! cyclic interval, and each pass halves the runs while keeping them so.

use vstd::prelude::*;
use crate::bitfacts::{
    p2, run, off, lemma_bit_split, lemma_partner_up, lemma_runs_nest, lemma_partner_in_range,
    lemma_run_base,
};
use crate::parallel::{par_pass, par_stage, par_network, dir_of, low_out, high_out};
use crate::types::SortOrder;

verus! {

/// Whether offset `k` of a cycle of length `m` lies in the cyclic interval of
/// length `l` that starts at `x`.
pub open spec fn in_cyc(k: int, x: int, l: int, m: int) -> bool {
    if k >= x {
        k - x < l
    } else {
        k - x + m < l
    }
}

/// Comparing offset `k` and `k + d` of a cyclic interval in a cycle of `2d`:
/// both are in it exactly when the interval is longer than `d` and `k` is in
/// the interval shortened by `d`; one of them is when the interval is longer
/// than `d` or `k` is in the interval folded onto `d`.
pub proof fn lemma_half_clean(k: int, x: int, l: int, d: int)
    requires
        d > 0,
        0 <= k < d,
        0 <= x < 2 * d,
        0 <= l <= 2 * d,
    ensures
        (in_cyc(k, x, l, 2 * d) && in_cyc(k + d, x, l, 2 * d)) == (l > d && in_cyc(
            k,
            if x >= d { x - d } else { x },
            l - d,
            d,
        )),
        (in_cyc(k, x, l, 2 * d) || in_cyc(k + d, x, l, 2 * d)) == (l > d || in_cyc(
            k,
            if x >= d { x - d } else { x },
            l,
            d,
        )),
{
}

/// Every element is 0 or 1.
pub open spec fn zero_one(b: Seq<u32>) -> bool {
    forall|i: int| 0 <= i < b.len() ==> #[trigger] b[i] <= 1
}

/// `a` comes before `b` in the given direction.
pub open spec fn ordered(a: u32, b: u32, asc: bool) -> bool {
    if asc {
        a <= b
    } else {
        a >= b
    }
}

/// Elements `i` and `j` of one block of `2^g` that lie in different runs
/// of `2^f` are in the block's order.
pub open spec fn runs_ordered_at(b: Seq<u32>, g: u32, f: u32, order: SortOrder, i: u32, j: u32) -> bool {
    (i < b.len() && j < b.len() && run(i, g) == run(j, g) && run(i, f) < run(j, f)) ==> ordered(
        b[i as int],
        b[j as int],
        dir_of(run(i, g), order),
    )
}

pub open spec fn runs_ordered(b: Seq<u32>, g: u32, f: u32, order: SortOrder) -> bool {
    forall|i: u32, j: u32| #[trigger] runs_ordered_at(b, g, f, order, i, j)
}

/// Element `i` is a one exactly when its offset lies in the cyclic interval
/// `(xs(w), ls(w))` of its run `w` of `2^f`.
pub open spec fn cyc_at(
    b: Seq<u32>,
    f: u32,
    xs: spec_fn(u32) -> int,
    ls: spec_fn(u32) -> int,
    i: u32,
) -> bool {
    i < b.len() ==> {
        let w = run(i, f);
        let m = p2(f) as int;
        &&& 0 <= xs(w) < m
        &&& 0 <= ls(w) <= m
        &&& (b[i as int] == 1 <==> in_cyc(off(i, f) as int, xs(w), ls(w), m))
    }
}

/// In every run `w` of `2^f`, the ones form the cyclic interval `(xs(w), ls(w))`.
pub open spec fn cyclic_with(b: Seq<u32>, f: u32, xs: spec_fn(u32) -> int, ls: spec_fn(u32) -> int) -> bool {
    forall|i: u32| #[trigger] cyc_at(b, f, xs, ls, i)
}

/// In every run of `2^f`, the ones form a cyclic interval.
pub open spec fn runs_cyclic(b: Seq<u32>, f: u32) -> bool {
    exists|xs: spec_fn(u32) -> int, ls: spec_fn(u32) -> int| #[trigger] cyclic_with(b, f, xs, ls)
}

/// Start of the folded interval in a half run.
pub open spec fn fold_start(x: int, d: int) -> int {
    if x >= d {
        x - d
    } else {
        x
    }
}

/// Length of the interval in half `h` (0 lower, 1 upper) of a run whose
/// interval has length `l`, when the lower half takes the smaller values
/// exactly if `asc`.
pub open spec fn fold_len(l: int, d: int, asc: bool, h: u32) -> int {
    if asc == (h == 0) {
        if l > d {
            l - d
        } else {
            0
        }
    } else {
        if l > d {
            d
        } else {
            l
        }
    }
}

proof fn lemma_pass_cyclic_at(
    b: Seq<u32>,
    k: u32,
    s: u32,
    e: u32,
    order: SortOrder,
    xs: spec_fn(u32) -> int,
    ls: spec_fn(u32) -> int,
    i: u32,
)
    requires
        zero_one(b),
        b.len() == p2(k),
        k < 32,
        e <= s,
        s < k,
        forall|i: u32| #[trigger] cyc_at(b, (e + 1) as u32, xs, ls, i),
    ensures
        cyc_at(
            par_pass(b, s, e, order),
            e,
            |w2: u32| fold_start(xs(w2 / 2), p2(e) as int),
            |w2: u32|
                fold_len(
                    ls(w2 / 2),
                    p2(e) as int,
                    dir_of(w2 >> ((s + 1 - e) as u32), order),
                    w2 % 2,
                ),
            i,
        ),
{
    let b2 = par_pass(b, s, e, order);
    let d = p2(e);
    let f = (e + 1) as u32;
    if i < b.len() {
        lemma_bit_split(i, e);
        lemma_runs_nest(i, i, e, s);
        lemma_partner_in_range(i, e, k);
        let w2 = run(i, e);
        let w = run(i, f);
        let asc = dir_of(run(i, (s + 1) as u32), order);
        assert(asc == dir_of(w2 >> ((s + 1 - e) as u32), order));
        assert(cyc_at(b, f, xs, ls, i));
        let x = xs(w);
        let l = ls(w);
        if i & d == 0 {
            let p = (i + d) as u32;
            lemma_partner_up(i, e, s);
            lemma_bit_split(p, e);
            assert(cyc_at(b, f, xs, ls, p));
            assert(b[i as int] <= 1 && b[p as int] <= 1);
            lemma_half_clean(off(i, e) as int, x, l, d as int);
            assert(b2[i as int] == low_out(b[i as int], b[p as int], asc));
        } else {
            let p = (i - d) as u32;
            lemma_bit_split(p, e);
            lemma_partner_up(p, e, s);
            assert((p + d) as u32 == i);
            assert(cyc_at(b, f, xs, ls, p));
            assert(b[i as int] <= 1 && b[p as int] <= 1);
            lemma_half_clean(off(p, e) as int, x, l, d as int);
            assert(b2[i as int] == high_out(b[p as int], b[i as int], asc));
        }
    }
}

/// The partner of element `i` in a pass whose pairs are `2^e` apart.
pub open spec fn partner_of(i: u32, e: u32) -> u32 {
    if i & p2(e) == 0 {
        (i + p2(e)) as u32
    } else {
        (i - p2(e)) as u32
    }
}

/// What a pass gives element `i`, in terms of its partner, and where the
/// partner lies.
proof fn lemma_pass_at(b: Seq<u32>, k: u32, s: u32, e: u32, order: SortOrder, i: u32)
    requires
        b.len() == p2(k),
        k < 32,
        e <= s,
        s < k,
        i < b.len(),
    ensures
        ({
            let p = partner_of(i, e);
            let asc = dir_of(run(i, (s + 1) as u32), order);
            let b2 = par_pass(b, s, e, order);
            &&& p < b.len()
            &&& run(p, (e + 1) as u32) == run(i, (e + 1) as u32)
            &&& run(p, (s + 1) as u32) == run(i, (s + 1) as u32)
            &&& (i & p2(e) == 0) ==> (p & p2(e) != 0 && off(p, e) == off(i, e) && b2[i as int]
                == low_out(b[i as int], b[p as int], asc))
            &&& (i & p2(e) != 0) ==> (p & p2(e) == 0 && off(p, e) == off(i, e) && b2[i as int]
                == high_out(b[p as int], b[i as int], asc))
        }),
{
    let d = p2(e);
    lemma_bit_split(i, e);
    lemma_partner_in_range(i, e, k);
    if i & d == 0 {
        lemma_partner_up(i, e, s);
    } else {
        let p = (i - d) as u32;
        lemma_partner_up(p, e, s);
        assert((p + d) as u32 == i);
    }
}

proof fn lemma_pass_ordered_at(
    b: Seq<u32>,
    k: u32,
    s: u32,
    e: u32,
    order: SortOrder,
    xs: spec_fn(u32) -> int,
    ls: spec_fn(u32) -> int,
    i: u32,
    j: u32,
)
    requires
        zero_one(b),
        b.len() == p2(k),
        k < 32,
        e <= s,
        s < k,
        cyclic_with(b, (e + 1) as u32, xs, ls),
        runs_ordered(b, (s + 1) as u32, (e + 1) as u32, order),
    ensures
        runs_ordered_at(par_pass(b, s, e, order), (s + 1) as u32, e, order, i, j),
{
    let b2 = par_pass(b, s, e, order);
    let d = p2(e);
    let f = (e + 1) as u32;
    if i < b.len() && j < b.len() && run(i, (s + 1) as u32) == run(j, (s + 1) as u32) && run(i, e)
        < run(j, e) {
        lemma_runs_nest(i, j, e, s);
        lemma_pass_at(b, k, s, e, order, i);
        lemma_pass_at(b, k, s, e, order, j);
        let pi = partner_of(i, e);
        let pj = partner_of(j, e);
        let asc = dir_of(run(i, (s + 1) as u32), order);
        assert(b[i as int] <= 1 && b[j as int] <= 1 && b[pi as int] <= 1 && b[pj as int] <= 1);
        if run(i, f) < run(j, f) {
            assert(runs_ordered_at(b, (s + 1) as u32, f, order, i, j));
            assert(runs_ordered_at(b, (s + 1) as u32, f, order, pi, j));
            assert(runs_ordered_at(b, (s + 1) as u32, f, order, i, pj));
            assert(runs_ordered_at(b, (s + 1) as u32, f, order, pi, pj));
        } else {
            assert(i & d == 0 && j & d != 0);
            lemma_bit_split(i, e);
            lemma_bit_split(pj, e);
            lemma_bit_split(pi, e);
            lemma_bit_split(j, e);
            assert(cyc_at(b, f, xs, ls, i));
            assert(cyc_at(b, f, xs, ls, pi));
            assert(cyc_at(b, f, xs, ls, j));
            assert(cyc_at(b, f, xs, ls, pj));
            let w = run(i, f);
            lemma_half_clean(off(i, e) as int, xs(w), ls(w), d as int);
            lemma_half_clean(off(pj, e) as int, xs(w), ls(w), d as int);
            assert(ordered(b2[i as int], b2[j as int], asc));
        }
        assert(ordered(b2[i as int], b2[j as int], asc));
    }
}

/// One pass keeps a zero-one buffer zero-one, and turns runs of `2^(e+1)`
/// with cyclic intervals of ones, ordered among themselves within each block
/// of `2^(s+1)`, into runs of `2^e` of the same kind.
pub proof fn lemma_pass_keeps(b: Seq<u32>, k: u32, s: u32, e: u32, order: SortOrder)
    requires
        zero_one(b),
        b.len() == p2(k),
        k < 32,
        e <= s,
        s < k,
        runs_ordered(b, (s + 1) as u32, (e + 1) as u32, order),
        runs_cyclic(b, (e + 1) as u32),
    ensures
        zero_one(par_pass(b, s, e, order)),
        runs_ordered(par_pass(b, s, e, order), (s + 1) as u32, e, order),
        runs_cyclic(par_pass(b, s, e, order), e),
{
    let b2 = par_pass(b, s, e, order);
    let f = (e + 1) as u32;
    let (xs, ls) = choose|xs: spec_fn(u32) -> int, ls: spec_fn(u32) -> int| cyclic_with(b, f, xs, ls);
    let xs2 = |w2: u32| fold_start(xs(w2 / 2), p2(e) as int);
    let ls2 = |w2: u32|
        fold_len(ls(w2 / 2), p2(e) as int, dir_of(w2 >> ((s + 1 - e) as u32), order), w2 % 2);
    assert forall|i: u32| #[trigger] cyc_at(b2, e, xs2, ls2, i) by {
        lemma_pass_cyclic_at(b, k, s, e, order, xs, ls, i);
    }
    assert(cyclic_with(b2, e, xs2, ls2));
    assert forall|i: u32, j: u32| #[trigger] runs_ordered_at(b2, (s + 1) as u32, e, order, i, j) by {
        lemma_pass_ordered_at(b, k, s, e, order, xs, ls, i, j);
    }
    assert forall|ii: int| 0 <= ii < b2.len() implies #[trigger] b2[ii] <= 1 by {
        lemma_pass_at(b, k, s, e, order, ii as u32);
        let p = partner_of(ii as u32, e);
        assert(b[ii] <= 1 && b[p as int] <= 1);
    }
}

/// Number of ones in `b[lo..hi]`.
pub open spec fn count_ones(b: Seq<u32>, lo: int, hi: int) -> int
    decreases hi - lo,
{
    if hi <= lo {
        0
    } else {
        count_ones(b, lo, hi - 1) + if b[hi - 1] == 1 {
            1int
        } else {
            0int
        }
    }
}

/// In a zero-one range sorted upwards, the ones are the last `count_ones`.
pub proof fn lemma_sorted_up_ones(b: Seq<u32>, lo: int, hi: int)
    requires
        0 <= lo <= hi <= b.len(),
        zero_one(b),
        forall|p: int, q: int| lo <= p < q < hi ==> b[p] <= b[q],
    ensures
        0 <= count_ones(b, lo, hi) <= hi - lo,
        forall|p: int| lo <= p < hi ==> (b[p] == 1 <==> p >= hi - count_ones(b, lo, hi)),
    decreases hi - lo,
{
    if hi > lo {
        lemma_sorted_up_ones(b, lo, hi - 1);
        let c = count_ones(b, lo, hi - 1);
        assert(b[hi - 1] <= 1);
        if b[hi - 1] == 0 {
            if c > 0 {
                assert(b[hi - 2] == 1);
                assert(b[hi - 2] <= b[hi - 1]);
            }
        }
    }
}

/// In a zero-one range sorted downwards, the ones are the first `count_ones`.
pub proof fn lemma_sorted_down_ones(b: Seq<u32>, lo: int, hi: int)
    requires
        0 <= lo <= hi <= b.len(),
        zero_one(b),
        forall|p: int, q: int| lo <= p < q < hi ==> b[p] >= b[q],
    ensures
        0 <= count_ones(b, lo, hi) <= hi - lo,
        forall|p: int| lo <= p < hi ==> (b[p] == 1 <==> p < lo + count_ones(b, lo, hi)),
    decreases hi - lo,
{
    if hi > lo {
        lemma_sorted_down_ones(b, lo, hi - 1);
        let c = count_ones(b, lo, hi - 1);
        assert(b[hi - 1] <= 1);
        if b[hi - 1] == 1 {
            if c < hi - 1 - lo {
                assert(b[lo + c] != 1);
                assert(b[lo + c] >= b[hi - 1]);
                assert(b[lo + c] <= 1);
            }
        }
    }
}

proof fn lemma_same_run(a: int, v: int, l: int, o: int)
    by (nonlinear_arith)
    requires
        l > 0,
        0 <= o < l,
        v * l <= a * l + o < v * l + l,
    ensures
        a == v,
{
    if a > v {
        assert(a * l >= (v + 1) * l);
    }
    if a < v {
        assert(a * l <= (v - 1) * l);
    }
}

/// Number of ones in block `v` of `2^f`.
pub open spec fn block_ones(b: Seq<u32>, f: u32, v: int) -> int {
    count_ones(b, v * p2(f), v * p2(f) + p2(f))
}

/// A block of `2^g` that is sorted holds its ones at its end when it is
/// sorted upwards and at its start when it is sorted downwards.
proof fn lemma_block_ones(b: Seq<u32>, k: u32, g: u32, order: SortOrder, v: u32)
    requires
        zero_one(b),
        b.len() == p2(k),
        k < 32,
        g <= k,
        runs_ordered(b, g, 0, order),
        (v + 1) * p2(g) <= b.len(),
    ensures
        0 <= block_ones(b, g, v as int) <= p2(g),
        forall|i: u32|
            i < b.len() && run(i, g) == v ==> (#[trigger] b[i as int] == 1 <==> if dir_of(
                v,
                order,
            ) {
                off(i, g) >= p2(g) - block_ones(b, g, v as int)
            } else {
                off(i, g) < block_ones(b, g, v as int)
            }),
{
    let f = g;
    let l = p2(f) as int;
    let lo = v * l;
    let hi = lo + l;
    assert(lo >= 0 && hi == (v + 1) * l) by (nonlinear_arith)
        requires
            v >= 0,
            l >= 0,
            lo == v * l,
            hi == lo + l,
    ;
    assert forall|p: int, q: int| lo <= p < q < hi implies ordered(b[p], b[q], dir_of(v, order)) by {
        let pp = p as u32;
        let qq = q as u32;
        lemma_run_base(pp, f, k);
        lemma_run_base(qq, f, k);
        lemma_same_run(run(pp, f) as int, v as int, l, off(pp, f) as int);
        lemma_same_run(run(qq, f) as int, v as int, l, off(qq, f) as int);
        assert(runs_ordered_at(b, g, 0, order, pp, qq));
    }
    if dir_of(v, order) {
        assert forall|p: int, q: int| lo <= p < q < hi implies b[p] <= b[q] by {
            assert(ordered(b[p], b[q], dir_of(v, order)));
        }
        lemma_sorted_up_ones(b, lo, hi);
    } else {
        assert forall|p: int, q: int| lo <= p < q < hi implies b[p] >= b[q] by {
            assert(ordered(b[p], b[q], dir_of(v, order)));
        }
        lemma_sorted_down_ones(b, lo, hi);
    }
    assert forall|i: u32| i < b.len() && run(i, f) == v implies (#[trigger] b[i as int] == 1 <==> if dir_of(
        v,
        order,
    ) {
        off(i, f) >= l - block_ones(b, f, v as int)
    } else {
        off(i, f) < block_ones(b, f, v as int)
    }) by {
        lemma_run_base(i, f, k);
    }
}

/// When every block of `2^g` is sorted, in alternating directions, every run
/// of `2^(g+1)` holds its ones in a cyclic interval.
pub proof fn lemma_stage_transition(b: Seq<u32>, k: u32, g: u32, order: SortOrder)
    requires
        zero_one(b),
        b.len() == p2(k),
        k < 32,
        g < k,
        runs_ordered(b, g, 0, order),
    ensures
        runs_cyclic(b, (g + 1) as u32),
{
    let f1 = g;
    let f2 = (g + 1) as u32;
    let l = p2(f1) as int;
    let asc_order = order == SortOrder::Ascending;
    let xs = |w: u32|
        if asc_order {
            l - block_ones(b, f1, 2 * w)
        } else if block_ones(b, f1, 2 * w + 1) == 0 {
            0
        } else {
            2 * l - block_ones(b, f1, 2 * w + 1)
        };
    let ls = |w: u32| block_ones(b, f1, 2 * w) + block_ones(b, f1, 2 * w + 1);
    assert forall|i: u32| #[trigger] cyc_at(b, f2, xs, ls, i) by {
        if i < b.len() {
            lemma_bit_split(i, f1);
            lemma_run_base(i, f1, k);
            lemma_run_base(i, f2, k);
            let w = run(i, f2);
            let v = run(i, f1);
            assert(p2(f2) == 2 * l);
            assert(v == 2 * w || v == 2 * w + 1);
            let v0 = (2 * w) as u32;
            let v1 = (2 * w + 1) as u32;
            assert((v1 + 1) * l == (w + 1) * p2(f2)) by (nonlinear_arith)
                requires
                    v1 == 2 * w + 1,
                    p2(f2) == 2 * l,
            ;
            assert((v0 + 1) * l <= (v1 + 1) * l) by (nonlinear_arith)
                requires
                    v0 + 1 <= v1 + 1,
                    l > 0,
            ;
            lemma_block_ones(b, k, g, order, v0);
            lemma_block_ones(b, k, g, order, v1);
            assert(dir_of(v0, order) == asc_order);
            assert(dir_of(v1, order) == !asc_order);
            assert(b[i as int] <= 1);
        }
    }
    assert(cyclic_with(b, f2, xs, ls));
}

proof fn lemma_stage_01(b: Seq<u32>, k: u32, s: u32, order: SortOrder, p: nat)
    requires
        zero_one(b),
        b.len() == p2(k),
        k < 32,
        s < k,
        runs_cyclic(b, (s + 1) as u32),
        p <= s + 1,
    ensures
        par_stage(b, s, p, order).len() == b.len(),
        zero_one(par_stage(b, s, p, order)),
        runs_ordered(par_stage(b, s, p, order), (s + 1) as u32, (s + 1 - p) as u32, order),
        runs_cyclic(par_stage(b, s, p, order), (s + 1 - p) as u32),
    decreases p,
{
    if p == 0 {
        assert forall|i: u32, j: u32| #[trigger]
            runs_ordered_at(b, (s + 1) as u32, (s + 1) as u32, order, i, j) by {}
    } else {
        lemma_stage_01(b, k, s, order, (p - 1) as nat);
        let prev = par_stage(b, s, (p - 1) as nat, order);
        lemma_pass_keeps(prev, k, s, (s - (p - 1)) as u32, order);
    }
}

/// After stages `0..t` of the network, every block of `2^t` of a zero-one
/// buffer of `2^k` elements is sorted, upwards for even blocks and downwards
/// for odd ones when the order is ascending, the other way round otherwise.
pub proof fn lemma_network_01(b: Seq<u32>, k: u32, order: SortOrder, t: nat)
    requires
        zero_one(b),
        b.len() == p2(k),
        k < 32,
        t <= k,
    ensures
        par_network(b, t, order).len() == b.len(),
        zero_one(par_network(b, t, order)),
        runs_ordered(par_network(b, t, order), t as u32, 0, order),
    decreases t,
{
    if t == 0 {
        assert forall|i: u32, j: u32| #[trigger] runs_ordered_at(b, 0, 0, order, i, j) by {}
    } else {
        lemma_network_01(b, k, order, (t - 1) as nat);
        let prev = par_network(b, (t - 1) as nat, order);
        lemma_stage_transition(prev, k, (t - 1) as u32, order);
        lemma_stage_01(prev, k, (t - 1) as u32, order, t);
    }
}

} // verus!
