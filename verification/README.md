# rust-gpu-chimera

A bitonic sorting network whose kernel is shared by every compute backend,
and the integer part of a Majorana-string rotation kernel, verified with Verus.

- `src/types.rs`, `src/keys.rs`: the shared parameter types, sort orders and
  the 32-bit keys that elements are sorted by.
- `src/kernel.rs`: the work of one kernel thread in one pass of the network.
- `src/network.rs`: a pass as all its threads, the stages, and a CPU pass.
- `src/runner.rs`: the `SortRunner` trait (prepare, pad, run the stages,
  convert back) and the CPU backend.
- `src/parallel.rs`, `src/zero_one.rs`, `src/sortedness.rs`, `src/sort_spec.rs`:
  the proof that the network sorts every buffer of `2^k` elements and that a
  sort returns the input's elements in order.
- `src/majorana.rs`: dropping, commutation test and product of Majorana strings.
- `app/lib.rs`: device parameter blocks, the floating-point coefficient update
  of the Majorana rotation and its runner interface, logging.
