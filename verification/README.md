# riscv_benchmarks

A suite of small benchmarks for bare-metal RISC-V cores, with the logic of every benchmark
verified in Verus.

## Layout

- `src/` — the verified library.
  - `htif`: the frames of HTIF proxy system calls (`write`, `exit`) and the failure word.
  - `bench`: the check of a benchmark's output, counter increments, the end of a run, and
    the micro-benchmark runner.
  - `marchid`: names of RISC-V architecture IDs.
  - `median`, `vvadd`, `multiply`: numeric kernels.
  - `qsort`: quicksort with median-of-three partitioning and its helper sorts.
  - `sorting`: radix sort (`radsort`) and the standard library's unstable sort.
  - `sat`: a DPLL SAT solver with unit propagation.
  - `huffman`: Huffman coding (tree building, code tables, encoding, decoding).
  - `graph`: breadth-first and depth-first traversal, cycle detection, and topological
    sorting by Kahn's algorithm.
  - `hash`: SHA-256 (`sha2`) and MD5 (`md-5`) digests.
  - `cipher`: AES-256 (`aes`) applied block by block.
  - `compress`: DEFLATE compression round trips (`miniz_oxide`).
  - `matching`: counting regular-expression matches (`regex-automata`).
  - `records`: the company records of the JSON benchmark, with the capacities of their
    fields as their invariant, and their comparison.
  - `nic`, `blkdev`: the meaning of the network card's and block device's register words,
    and the checks of their tests.
  - `harts`: the decisions of the multi-hart greeting's barrier.
- `tests/` — tests of the library on concrete values.
- `app/` — a host runner that times each benchmark with a nanosecond clock and prints what
  the bare-metal programs print; the JSON round trip through `serde-json-core` lives here.

Calls into outside crates go through small trusted wrappers whose contracts name the
crates' results; everything around them is proved.
