use rust_gpu_chimera::keys::SortableKey;
use rust_gpu_chimera::kernel::{bitonic_kernel, bitonic_sort_step};
use rust_gpu_chimera::network::cpu_kernel_pass;
use rust_gpu_chimera::runner::{verify_sorted, ComputeError, CpuRunner, SortRunner, BackendInfo};
use rust_gpu_chimera::sizes::{log2_floor_u32, next_power_of_two};
use rust_gpu_chimera::types::{BitonicParams, Pass, SortOrder, Stage, ThreadId};

fn params(n: u32, stage: u32, pass: u32, order: u32) -> BitonicParams {
    BitonicParams {
        num_elements: n,
        stage: Stage::new(stage),
        pass_of_stage: Pass::new(pass),
        sort_order: order,
    }
}

fn is_sorted_u32(v: &[u32], order: SortOrder) -> bool {
    v.windows(2).all(|w| match order {
        SortOrder::Ascending => w[0] <= w[1],
        SortOrder::Descending => w[0] >= w[1],
    })
}

fn same_elements(a: &[u32], b: &[u32]) -> bool {
    let mut x = a.to_vec();
    let mut y = b.to_vec();
    x.sort();
    y.sort();
    x == y
}

#[test]
fn step_swaps_pair_out_of_order() {
    let mut data = [3u32, 1];
    bitonic_sort_step(ThreadId::new(0), &mut data, Stage::new(0), Pass::new(0), 2, SortOrder::Ascending);
    assert_eq!(data, [1, 3]);
}

#[test]
fn step_descending_keeps_pair() {
    let mut data = [3u32, 1];
    bitonic_sort_step(ThreadId::new(0), &mut data, Stage::new(0), Pass::new(0), 2, SortOrder::Descending);
    assert_eq!(data, [3, 1]);
}

#[test]
fn step_upper_thread_does_nothing() {
    let mut data = [3u32, 1];
    bitonic_sort_step(ThreadId::new(1), &mut data, Stage::new(0), Pass::new(0), 2, SortOrder::Ascending);
    assert_eq!(data, [3, 1]);
}

#[test]
fn step_thread_out_of_range_does_nothing() {
    let mut data = [3u32, 1, 0, 9];
    bitonic_sort_step(ThreadId::new(7), &mut data, Stage::new(1), Pass::new(0), 4, SortOrder::Ascending);
    assert_eq!(data, [3, 1, 0, 9]);
}

#[test]
fn step_partner_beyond_num_elements_does_nothing() {
    let mut data = [5u32, 4, 3];
    bitonic_sort_step(ThreadId::new(2), &mut data, Stage::new(0), Pass::new(0), 3, SortOrder::Ascending);
    assert_eq!(data, [5, 4, 3]);
}

#[test]
fn step_second_block_of_stage_zero_sorts_down() {
    // Block 1 of size 2 (elements 2 and 3) is descending in an ascending sort.
    let mut data = [0u32, 0, 1, 2];
    bitonic_sort_step(ThreadId::new(2), &mut data, Stage::new(0), Pass::new(0), 4, SortOrder::Ascending);
    assert_eq!(data, [0, 0, 2, 1]);
}

#[test]
fn step_distance_follows_stage_minus_pass() {
    // Stage 1, pass 0: pairs are 2 apart.
    let mut data = [9u32, 0, 1, 0];
    bitonic_sort_step(ThreadId::new(0), &mut data, Stage::new(1), Pass::new(0), 4, SortOrder::Ascending);
    assert_eq!(data, [1, 0, 9, 0]);
}

#[test]
fn kernel_reads_order_from_params() {
    let mut data = [1u32, 3];
    bitonic_kernel(ThreadId::new(0), &mut data, &params(2, 0, 0, 7));
    assert_eq!(data, [3, 1]);
    bitonic_kernel(ThreadId::new(0), &mut data, &params(2, 0, 0, 0));
    assert_eq!(data, [1, 3]);
}

#[test]
fn cpu_pass_runs_every_thread() {
    let mut data = [4u32, 3, 2, 1];
    cpu_kernel_pass(&mut data, params(4, 0, 0, 0));
    assert_eq!(data, [3, 4, 2, 1]);
}

#[test]
fn run_stages_sorts_power_of_two() {
    let mut data = vec![7u32, 3, 9, 1, 0, 8, 2, 2];
    let r = CpuRunner.run_bitonic_stages(&mut data, SortOrder::Ascending);
    assert!(r.is_ok());
    assert_eq!(data, vec![0, 1, 2, 2, 3, 7, 8, 9]);
}

#[test]
fn run_stages_sorts_descending() {
    let mut data = vec![7u32, 3, 9, 1];
    let r = CpuRunner.run_bitonic_stages(&mut data, SortOrder::Descending);
    assert!(r.is_ok());
    assert_eq!(data, vec![9, 7, 3, 1]);
}

#[test]
fn sort_u32_ascending_non_power_of_two() {
    let mut data = vec![5u32, 1, 4, 1, 3];
    CpuRunner.sort(&mut data, SortOrder::Ascending).unwrap();
    assert_eq!(data, vec![1, 1, 3, 4, 5]);
}

#[test]
fn sort_u32_descending_non_power_of_two() {
    let mut data = vec![5u32, 1, 4, 1, 3, 0, 6];
    CpuRunner.sort(&mut data, SortOrder::Descending).unwrap();
    assert_eq!(data, vec![6, 5, 4, 3, 1, 1, 0]);
}

#[test]
fn sort_keeps_values_equal_to_sentinel() {
    let mut data = vec![u32::MAX, 2, u32::MAX];
    CpuRunner.sort(&mut data, SortOrder::Ascending).unwrap();
    assert_eq!(data, vec![2, u32::MAX, u32::MAX]);
    let mut data = vec![0u32, 2, 0];
    CpuRunner.sort(&mut data, SortOrder::Descending).unwrap();
    assert_eq!(data, vec![2, 0, 0]);
}

#[test]
fn sort_empty_and_single() {
    let mut empty: Vec<u32> = vec![];
    assert!(CpuRunner.sort(&mut empty, SortOrder::Ascending).is_ok());
    assert!(empty.is_empty());
    let mut one = vec![42u32];
    assert!(CpuRunner.sort(&mut one, SortOrder::Descending).is_ok());
    assert_eq!(one, vec![42]);
}

#[test]
fn sort_many_lengths_is_sorted_permutation() {
    let mut seed: u32 = 12345;
    for len in 0..70usize {
        for order in [SortOrder::Ascending, SortOrder::Descending] {
            let mut data: Vec<u32> = (0..len)
                .map(|_| {
                    seed = seed.wrapping_mul(1103515245).wrapping_add(12345);
                    seed >> 20
                })
                .collect();
            let before = data.clone();
            CpuRunner.sort(&mut data, order).unwrap();
            assert!(is_sorted_u32(&data, order));
            assert!(same_elements(&before, &data));
        }
    }
}

#[test]
fn sort_i32_with_negatives() {
    let mut data = vec![3i32, -7, 0, i32::MIN, i32::MAX, -1];
    CpuRunner.sort(&mut data, SortOrder::Ascending).unwrap();
    assert_eq!(data, vec![i32::MIN, -7, -1, 0, 3, i32::MAX]);
    CpuRunner.sort(&mut data, SortOrder::Descending).unwrap();
    assert_eq!(data, vec![i32::MAX, 3, 0, -1, -7, i32::MIN]);
}

#[test]
fn prepare_and_finalize_convert_keys() {
    let data = vec![-1i32, 0, 1];
    let (keys, n) = CpuRunner.prepare_data(&data);
    assert_eq!(n, 3);
    assert_eq!(keys, vec![0x7fff_ffff, 0x8000_0000, 0x8000_0001]);
    let mut out = vec![9i32, 9, 9, 9];
    CpuRunner.finalize_data(&keys, &mut out);
    assert_eq!(out, vec![-1, 0, 1, 9]);
}

#[test]
fn pad_data_fills_with_sentinel() {
    let mut data = vec![1u32, 2, 3, 4, 5];
    CpuRunner.pad_data(&mut data, 5, SortOrder::Ascending);
    assert_eq!(data, vec![1, 2, 3, 4, 5, u32::MAX, u32::MAX, u32::MAX]);
    let mut data = vec![1u32, 2, 3];
    CpuRunner.pad_data(&mut data, 3, SortOrder::Descending);
    assert_eq!(data, vec![1, 2, 3, 0]);
    let mut data = vec![1u32, 2, 3, 4];
    CpuRunner.pad_data(&mut data, 4, SortOrder::Ascending);
    assert_eq!(data, vec![1, 2, 3, 4]);
}

struct FailingRunner;

impl SortRunner for FailingRunner {
    fn backend_info(&self) -> BackendInfo {
        ("test", None, None, None)
    }

    fn execute_kernel_pass(&self, _data: &mut [u32], _params: BitonicParams) -> Result<(), ComputeError> {
        Err(ComputeError { message: String::from("device lost") })
    }
}

#[test]
fn failed_pass_leaves_data_unchanged() {
    let mut data = vec![3u32, 2, 1];
    let r = FailingRunner.sort(&mut data, SortOrder::Ascending);
    assert_eq!(r.unwrap_err().message, "device lost");
    assert_eq!(data, vec![3, 2, 1]);
}

#[test]
fn verify_sorted_checks_neighbours() {
    assert!(verify_sorted(&[1u32, 2, 2, 5], SortOrder::Ascending));
    assert!(!verify_sorted(&[1u32, 3, 2], SortOrder::Ascending));
    assert!(verify_sorted(&[5i32, 0, -3], SortOrder::Descending));
    assert!(!verify_sorted(&[5i32, 6], SortOrder::Descending));
    assert!(verify_sorted::<u32>(&[], SortOrder::Ascending));
}

#[test]
fn sizes_of_the_network() {
    assert_eq!(next_power_of_two(0), 1);
    assert_eq!(next_power_of_two(1), 1);
    assert_eq!(next_power_of_two(5), 8);
    assert_eq!(next_power_of_two(8), 8);
    assert_eq!(log2_floor_u32(0), 0);
    assert_eq!(log2_floor_u32(1), 0);
    assert_eq!(log2_floor_u32(8), 3);
    assert_eq!(log2_floor_u32(9), 3);
    assert_eq!(log2_floor_u32(u32::MAX), 31);
}

#[test]
fn backend_info_of_cpu() {
    assert_eq!(CpuRunner.backend_info().0, "CPU");
}

#[test]
fn should_swap_by_order() {
    assert!(5u32.should_swap(&3, SortOrder::Ascending));
    assert!(!5u32.should_swap(&3, SortOrder::Descending));
    assert!((-3i32).should_swap(&2, SortOrder::Descending));
}

#[test]
fn verify_sorted_accepts_sort_output() {
    for order in [SortOrder::Ascending, SortOrder::Descending] {
        let mut data = vec![9u32, 2, 7, 2, 0, 11, 5, 3, 8];
        CpuRunner.sort(&mut data, order).unwrap();
        assert!(verify_sorted(&data, order));
    }
}

#[test]
fn pass_leaves_elements_beyond_num_elements() {
    let mut data = [4u32, 3, 2, 1];
    cpu_kernel_pass(&mut data, params(2, 0, 0, 0));
    assert_eq!(data, [3, 4, 2, 1]);
}

#[test]
fn run_stages_without_stages_launches_nothing() {
    let mut data = vec![5u32];
    assert!(FailingRunner.run_bitonic_stages(&mut data, SortOrder::Ascending).is_ok());
    assert_eq!(data, vec![5]);
    let mut data = vec![3u32, 1];
    assert!(FailingRunner.run_bitonic_stages(&mut data, SortOrder::Ascending).is_err());
}

#[test]
fn cpu_sort_succeeds() {
    let mut data = vec![4u32, 1, 3, 2, 9, 0];
    assert!(CpuRunner.sort(&mut data, SortOrder::Ascending).is_ok());
    assert!(verify_sorted(&data, SortOrder::Ascending));
    let mut data = vec![4u32, 1, 3];
    assert!(CpuRunner.run_bitonic_stages(&mut data, SortOrder::Ascending).is_ok());
}
