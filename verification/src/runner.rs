//! The host side of the sort: converting elements to keys, padding,
//! launching the passes of the network on a backend, and converting back.

use vstd::prelude::*;
use crate::compare::{compares_by_spec, spec_less_eq, spec_greater_eq};
use crate::keys::SortableKey;
use crate::network::{
    cpu_kernel_pass, pass_defined, pass_result, pass_params, network, stage_prefix, log2_floor,
    lemma_threads_permute,
};
use crate::sizes::{log2_floor_u32, next_power_of_two, next_pow2, lemma_ceil_log2};
use crate::sort_spec::{sentinel, pad_keys, run_stages_spec, keys_of, sort_spec};
use crate::sortedness::{lemma_pass_params_defined, sorted_by};
use crate::zero_one::ordered;
use crate::types::{BitonicParams, Pass, SortOrder, Stage, order_of_code};

verus! {

/// Failure reported by a compute backend.
#[derive(Debug)]
pub struct ComputeError {
    pub message: String,
}

/// Information about a backend: host, backend, adapter and driver.
pub type BackendInfo = (&'static str, Option<&'static str>, Option<String>, Option<String>);

/// A backend that runs the bitonic kernel, and the sort built on it.
pub trait SortRunner {
    /// Get backend information for logging: host, backend, adapter, driver.
    fn backend_info(&self) -> BackendInfo;

    /// Whether every pass that this backend executes succeeds, as on a
    /// backend that runs the kernel on the host. A backend claims nothing
    /// unless it says so.
    open spec fn passes_succeed(&self) -> bool {
        false
    }

    /// Execute a single kernel pass: every thread of the pass described by
    /// `params` runs `bitonic_sort_step` over `data`.
    fn execute_kernel_pass(&self, data: &mut [u32], params: BitonicParams) -> (r: Result<
        (),
        ComputeError,
    >)
        requires
            pass_defined(old(data)@.len() as int, params),
        ensures
            final(data)@.len() == old(data)@.len(),
            r is Ok ==> final(data)@ == pass_result(old(data)@, params),
            self.passes_succeed() ==> r is Ok,
    ;

    /// Prepare data by converting to `u32` representation.
    fn prepare_data<T: SortableKey>(&self, data: &[T]) -> (r: (Vec<u32>, usize))
        ensures
            r.0@ == keys_of(data@),
            r.1 == data@.len(),
    {
        let mut gpu_data: Vec<u32> = Vec::new();
        let mut i: usize = 0;
        while i < data.len()
            invariant
                i <= data@.len(),
                gpu_data@ == keys_of(data@).subrange(0, i as int),
            decreases data@.len() - i,
        {
            gpu_data.push(data[i].to_sortable_u32());
            i = i + 1;
            assert(gpu_data@ =~= keys_of(data@).subrange(0, i as int));
        }
        assert(gpu_data@ =~= keys_of(data@));
        (gpu_data, data.len())
    }

    /// Pad data to power of 2 size with appropriate sentinel values.
    fn pad_data(&self, data: &mut Vec<u32>, original_size: usize, order: SortOrder)
        requires
            original_size <= usize::MAX / 2 + 1,
        ensures
            ({
                let p = next_pow2(original_size as nat);
                if p <= original_size {
                    final(data)@ == old(data)@
                } else if p <= old(data)@.len() {
                    final(data)@ == old(data)@.subrange(0, p as int)
                } else {
                    final(data)@ == old(data)@ + Seq::new(
                        (p - old(data)@.len()) as nat,
                        |i: int| sentinel(order),
                    )
                }
            }),
    {
        let padded_size = next_power_of_two(original_size);
        if padded_size > original_size {
            let fill = match order {
                SortOrder::Ascending => u32::MAX,
                SortOrder::Descending => u32::MIN,
            };
            let ghost before = data@;
            data.resize(padded_size, fill);
            proof {
                if padded_size > before.len() {
                    assert(data@ =~= before + Seq::new(
                        (padded_size - before.len()) as nat,
                        |i: int| sentinel(order),
                    )) by {
                        assert forall|i: int| before.len() <= i < padded_size implies data@[i]
                            == sentinel(order) by {
                            assert(vstd::pervasive::cloned::<u32>(fill, data@[i]));
                        }
                        assert forall|i: int| 0 <= i < before.len() implies data@[i] == before[i] by {
                            assert(data@.subrange(0, before.len() as int)[i] == data@[i]);
                        }
                    }
                }
            }
        }
    }

    /// Run all bitonic sort stages and passes: as many stages as
    /// `floor(log2(n))` for the `n` elements, pass `0..=s` in stage `s`.
    /// With no stage to run, no pass is launched and the call succeeds.
    fn run_bitonic_stages(&self, data: &mut [u32], order: SortOrder) -> (r: Result<(), ComputeError>)
        ensures
            final(data)@.len() == old(data)@.len(),
            r is Ok ==> final(data)@ == run_stages_spec(old(data)@, order),
            self.passes_succeed() ==> r is Ok,
            log2_floor((#[verifier::truncate] (old(data)@.len() as u32)) as nat) == 0 ==> r is Ok && final(data)@ == old(
                data,
            )@,
    {
        let n = #[verifier::truncate] (data.len() as u32);
        let num_stages = log2_floor_u32(n);
        let ghost start = data@;
        let mut stage: u32 = 0;
        while stage < num_stages
            invariant
                num_stages <= 31,
                start == old(data)@,
                n == #[verifier::truncate] (start.len() as u32),
                num_stages == log2_floor(n as nat),
                stage <= num_stages,
                data@.len() == start.len(),
                data@ == network(start, n, order, stage as nat),
            decreases num_stages - stage,
        {
            let ghost at_stage = data@;
            let mut pass: u32 = 0;
            while pass <= stage
                invariant
                    stage < num_stages <= 31,
                    num_stages == log2_floor(n as nat),
                    pass <= stage + 1,
                    start == old(data)@,
                    n == #[verifier::truncate] (start.len() as u32),
                    data@.len() == start.len(),
                    at_stage == network(start, n, order, stage as nat),
                    data@ == stage_prefix(at_stage, n, order, stage, pass as nat),
                decreases stage + 1 - pass,
            {
                let params = BitonicParams {
                    num_elements: n,
                    stage: Stage::new(stage),
                    pass_of_stage: Pass::new(pass),
                    sort_order: order.into(),
                };
                proof {
                    assert(params == pass_params(n, stage, pass, order));
                    lemma_pass_params_defined(n, stage, pass, order);
                    assert(pass_defined(data@.len() as int, params));
                }
                match self.execute_kernel_pass(data, params) {
                    Ok(()) => {},
                    Err(e) => {
                        return Err(e);
                    },
                }
                pass = pass + 1;
            }
            stage = stage + 1;
        }
        Ok(())
    }

    /// Convert sorted `u32` data back to original type.
    fn finalize_data<T: SortableKey>(&self, gpu_data: &[u32], output: &mut [T])
        ensures
            final(output)@ == Seq::new(
                old(output)@.len(),
                |i: int|
                    if i < gpu_data@.len() {
                        T::from_key(gpu_data@[i])
                    } else {
                        old(output)@[i]
                    },
            ),
    {
        let ghost before = output@;
        let mut i: usize = 0;
        while i < output.len() && i < gpu_data.len()
            invariant
                i <= output@.len(),
                output@.len() == before.len(),
                forall|j: int|
                    0 <= j < output@.len() ==> #[trigger] output@[j] == if j < i && j < gpu_data@.len() {
                        T::from_key(gpu_data@[j])
                    } else {
                        before[j]
                    },
            decreases output@.len() - i,
        {
            output[i] = T::from_sortable_u32(gpu_data[i]);
            i = i + 1;
        }
        assert(output@ =~= Seq::new(
            before.len(),
            |j: int|
                if j < gpu_data@.len() {
                    T::from_key(gpu_data@[j])
                } else {
                    before[j]
                },
        ));
    }

    /// Sorts the given slice in-place using the bitonic sort algorithm.
    /// The data is converted to `u32` keys for sorting, then converted back.
    fn sort<T: SortableKey + Send + Sync>(&self, data: &mut [T], order: SortOrder) -> (r: Result<
        (),
        ComputeError,
    >)
        requires
            old(data)@.len() <= usize::MAX / 2 + 1,
        ensures
            old(data)@.len() <= 1 ==> r is Ok,
            self.passes_succeed() ==> r is Ok,
            r is Ok ==> final(data)@ == sort_spec(old(data)@, order),
            r is Err ==> final(data)@ == old(data)@,
    {
        if data.len() <= 1 {
            return Ok(());
        }
        let (mut gpu_data, original_size) = self.prepare_data(data);
        self.pad_data(&mut gpu_data, original_size, order);
        proof {
            lemma_ceil_log2(original_size as nat);
            assert(gpu_data@ =~= pad_keys(keys_of(data@), order));
        }
        match self.run_bitonic_stages(gpu_data.as_mut_slice(), order) {
            Ok(()) => {},
            Err(e) => {
                return Err(e);
            },
        }
        gpu_data.truncate(original_size);
        self.finalize_data(gpu_data.as_slice(), data);
        Ok(())
    }
}

/// The backend that runs the kernel's threads on the host, one after another.
pub struct CpuRunner;

impl SortRunner for CpuRunner {
    open spec fn passes_succeed(&self) -> bool {
        true
    }

    fn backend_info(&self) -> (r: BackendInfo)
        ensures
            r.0@ == "CPU"@,
            r.1 is None,
            r.2 is None,
            r.3 is None,
    {
        ("CPU", None, None, None)
    }

    fn execute_kernel_pass(&self, data: &mut [u32], params: BitonicParams) -> (r: Result<
        (),
        ComputeError,
    >)
        ensures
            r is Ok,
    {
        proof {
            lemma_threads_permute(
                old(data)@,
                params.num_elements as nat,
                params.stage.0,
                params.pass_of_stage.0,
                params.num_elements,
                order_of_code(params.sort_order),
            );
        }
        cpu_kernel_pass(data, params);
        Ok(())
    }
}

/// Element `i` of `data` is in order with element `i + 1`.
pub open spec fn adjacent_in_order<T: SortableKey>(data: Seq<T>, i: int, order: SortOrder) -> bool {
    match order {
        SortOrder::Ascending => spec_less_eq(&data[i], &data[i + 1]),
        SortOrder::Descending => spec_greater_eq(&data[i], &data[i + 1]),
    }
}

/// `verify_sorted` accepts every sequence of `u32` values that is sorted in
/// the order it is asked about, such as what a sort returns.
pub proof fn lemma_sorted_passes_check(s: Seq<u32>, order: SortOrder)
    requires
        sorted_by(s, order),
    ensures
        compares_by_spec::<u32>(),
        forall|i: int| 0 <= i < s.len() - 1 ==> #[trigger] adjacent_in_order(s, i, order),
{
    assert forall|i: int| 0 <= i < s.len() - 1 implies #[trigger] adjacent_in_order(s, i, order) by {
        assert(ordered(s[i], s[i + 1], order == SortOrder::Ascending));
    }
}

/// Whether each element of `data` is in order with the next one.
pub fn verify_sorted<T: SortableKey>(data: &[T], order: SortOrder) -> (r: bool)
    ensures
        compares_by_spec::<T>() ==> (r <==> forall|i: int|
            0 <= i < data@.len() - 1 ==> #[trigger] adjacent_in_order(data@, i, order)),
{
    let n = data.len();
    if n < 2 {
        return true;
    }
    let mut i: usize = 0;
    while i < n - 1
        invariant
            n == data@.len(),
            n >= 2,
            compares_by_spec::<T>() ==> forall|j: int|
                0 <= j < i ==> #[trigger] adjacent_in_order(data@, j, order),
            i <= data@.len(),
        decreases data@.len() - i,
    {
        let in_order = match order {
            SortOrder::Ascending => data[i] <= data[i + 1],
            SortOrder::Descending => data[i] >= data[i + 1],
        };
        if !in_order {
            proof {
                if compares_by_spec::<T>() {
                    assert(!adjacent_in_order(data@, i as int, order));
                }
            }
            return false;
        }
        i = i + 1;
    }
    true
}

} // verus!
