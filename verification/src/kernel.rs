//! One thread's work in one pass of the bitonic sorting network.

use vstd::prelude::*;
use crate::compare::{compares_by_spec, spec_greater, spec_less};
use crate::types::{BitonicParams, Pass, SortOrder, Stage, ThreadId, order_of_code};

verus! {

/// Whether the kernel can run thread `tid` of the pass `(stage, pass)` over
/// `num_elements` elements of a buffer of length `len` without a panic: the
/// shift widths fit in 32 bits, and a thread that swaps finds its partner in
/// the buffer and a non-zero block size.
pub open spec fn step_defined(tid: u32, len: int, stage: u32, pass: u32, num_elements: u32) -> bool {
    tid < num_elements ==> {
        &&& pass <= stage
        &&& stage - pass < 32
        &&& {
            let partner = tid ^ (1u32 << ((stage - pass) as u32));
            (partner > tid && partner < num_elements) ==> (stage < 31 && partner < len)
        }
    }
}

/// Whether the thread with index `tid` sorts its block of `2^(stage+1)`
/// elements upwards.
pub open spec fn block_ascending(tid: u32, stage: u32, order: SortOrder) -> bool {
    let block_size = 2u32 << stage;
    ((tid / block_size) % 2 == 0) == (order == SortOrder::Ascending)
}

/// What thread `tid` of the pass `(stage, pass)` does to the buffer `s`:
/// when its partner `tid ^ 2^(stage-pass)` lies above it and below
/// `num_elements`, the two elements are put in the block's order.
pub open spec fn step_spec(
    s: Seq<u32>,
    tid: u32,
    stage: u32,
    pass: u32,
    num_elements: u32,
    order: SortOrder,
) -> Seq<u32> {
    if tid >= num_elements {
        s
    } else {
        let partner = tid ^ (1u32 << ((stage - pass) as u32));
        if partner > tid && partner < num_elements {
            let a = s[tid as int];
            let b = s[partner as int];
            let swap = if block_ascending(tid, stage, order) { a > b } else { a < b };
            if swap {
                s.update(tid as int, b).update(partner as int, a)
            } else {
                s
            }
        } else {
            s
        }
    }
}

/// Distance between the two elements that one comparison looks at.
#[derive(Copy, Clone, Debug)]
pub struct ComparisonDistance(u32);

impl ComparisonDistance {
    pub closed spec fn value(self) -> u32 {
        self.0
    }

    fn from_stage_pass(stage: Stage, pass: Pass) -> (r: Self)
        requires
            pass.0 <= stage.0,
            stage.0 - pass.0 < 32,
        ensures
            r.value() == 1u32 << ((stage.0 - pass.0) as u32),
    {
        ComparisonDistance(1u32 << (stage.as_u32() - pass.as_u32()))
    }

    fn find_partner(&self, thread_id: ThreadId) -> (r: ThreadId)
        ensures
            r.id() == thread_id.id() ^ self.value(),
    {
        ThreadId::new(thread_id.as_u32() ^ self.0)
    }
}

/// Partnering is an involution: the partner of a thread's partner is the
/// thread itself, so the two threads of a pair name each other.
pub proof fn lemma_partner_involution(thread_id: ThreadId, distance: ComparisonDistance)
    ensures
        (thread_id.id() ^ distance.value()) ^ distance.value() == thread_id.id(),
{
    let t = thread_id.id();
    let d = distance.value();
    assert((t ^ d) ^ d == t) by (bit_vector);
}

/// The two elements that one comparison looks at.
#[derive(Copy, Clone, Debug)]
pub struct ComparisonPair {
    lower: ThreadId,
    upper: ThreadId,
}

impl ComparisonPair {
    pub closed spec fn lower_id(self) -> u32 {
        self.lower.id()
    }

    pub closed spec fn upper_id(self) -> u32 {
        self.upper.id()
    }

    fn try_new(thread_id: ThreadId, partner: ThreadId) -> (r: (bool, Self))
        ensures
            r.0 == (partner.id() > thread_id.id()),
            r.1.lower_id() == thread_id.id(),
            r.1.upper_id() == partner.id(),
    {
        let is_valid = partner.as_u32() > thread_id.as_u32();
        let pair = Self { lower: thread_id, upper: partner };
        (is_valid, pair)
    }

    fn is_in_bounds(&self, num_elements: u32) -> (r: bool)
        ensures
            r == (self.upper_id() < num_elements),
    {
        self.upper.as_u32() < num_elements
    }
}

/// Whether the block that a comparison falls in is sorted upwards.
#[derive(Copy, Clone, Debug)]
pub struct BitonicDirection {
    block_ascending: bool,
}

impl BitonicDirection {
    pub closed spec fn ascending(self) -> bool {
        self.block_ascending
    }

    fn from_position(thread_id: ThreadId, stage: Stage, global_order: SortOrder) -> (r: Self)
        requires
            stage.0 < 31,
        ensures
            r.ascending() == block_ascending(thread_id.id(), stage.0, global_order),
    {
        let st = stage.as_u32();
        let block_size = 2u32 << st;
        assert(block_size != 0) by (bit_vector)
            requires
                block_size == 2u32 << st,
                st < 31,
        ;
        let block_index = thread_id.as_u32() / block_size;
        let block_ascending = block_index % 2 == 0;
        Self {
            block_ascending: match global_order {
                SortOrder::Ascending => block_ascending,
                SortOrder::Descending => !block_ascending,
            },
        }
    }

    fn should_swap<T: PartialOrd>(&self, val_i: T, val_j: T) -> (r: bool)
        ensures
            compares_by_spec::<T>() ==> r == (if self.ascending() {
                spec_greater(&val_i, &val_j)
            } else {
                spec_less(&val_i, &val_j)
            }),
    {
        if self.block_ascending {
            val_i > val_j
        } else {
            val_i < val_j
        }
    }
}

/// Puts the two elements of `pair` in the order that `direction` asks for.
fn compare_and_swap<T: Copy + PartialOrd>(data: &mut [T], pair: ComparisonPair, direction: BitonicDirection)
    requires
        pair.lower_id() < old(data)@.len(),
        pair.upper_id() < old(data)@.len(),
    ensures
        ({
            let i = pair.lower_id() as int;
            let j = pair.upper_id() as int;
            let a = old(data)@[i];
            let b = old(data)@[j];
            let swapped = old(data)@.update(i, b).update(j, a);
            let swap = if direction.ascending() {
                spec_greater(&a, &b)
            } else {
                spec_less(&a, &b)
            };
            &&& final(data)@ == old(data)@ || final(data)@ == swapped
            &&& compares_by_spec::<T>() ==> final(data)@ == (if swap {
                swapped
            } else {
                old(data)@
            })
        }),
{
    let i = pair.lower.as_usize();
    let j = pair.upper.as_usize();

    let val_i = data[i];
    let val_j = data[j];

    if direction.should_swap(val_i, val_j) {
        data[i] = val_j;
        data[j] = val_i;
    }
}

/// The work of thread `thread_id` in pass `pass` of stage `stage` of the
/// bitonic network over the first `num_elements` elements of `data`.
pub fn bitonic_sort_step(
    thread_id: ThreadId,
    data: &mut [u32],
    stage: Stage,
    pass: Pass,
    num_elements: u32,
    sort_order: SortOrder,
)
    requires
        step_defined(thread_id.id(), old(data)@.len() as int, stage.0, pass.0, num_elements),
    ensures
        final(data)@ == step_spec(
            old(data)@,
            thread_id.id(),
            stage.0,
            pass.0,
            num_elements,
            sort_order,
        ),
{
    if thread_id.as_u32() >= num_elements {
        return;
    }
    let distance = ComparisonDistance::from_stage_pass(stage, pass);
    let partner = distance.find_partner(thread_id);
    let (is_valid, pair) = ComparisonPair::try_new(thread_id, partner);
    if is_valid && pair.is_in_bounds(num_elements) {
        let direction = BitonicDirection::from_position(thread_id, stage, sort_order);
        compare_and_swap(data, pair, direction);
    }
}

/// The kernel for one invocation: reads the pass from `params` (sort order
/// 0 is ascending, anything else descending) and runs the step of thread
/// `thread_id`.
pub fn bitonic_kernel(thread_id: ThreadId, data: &mut [u32], params: &BitonicParams)
    requires
        step_defined(
            thread_id.id(),
            old(data)@.len() as int,
            params.stage.0,
            params.pass_of_stage.0,
            params.num_elements,
        ),
    ensures
        final(data)@ == step_spec(
            old(data)@,
            thread_id.id(),
            params.stage.0,
            params.pass_of_stage.0,
            params.num_elements,
            order_of_code(params.sort_order),
        ),
{
    let sort_order = if params.sort_order == 0 {
        SortOrder::Ascending
    } else {
        SortOrder::Descending
    };
    bitonic_sort_step(
        thread_id,
        data,
        params.stage,
        params.pass_of_stage,
        params.num_elements,
        sort_order,
    );
}

} // verus!
