# matrixmult

A benchmark of parallel multiplication of square `u32` matrices, split into a
verified library (`src/`) and the program around it (`app/`).

- `src/matrix.rs`: the product as a specification, the reference product
  `single`, the comparison `vergleich` and random matrices.
- `src/algorithmus/`: what each benchmarked algorithm computes on the rows it
  is given (plain, unrolled, tiled, eight-lane, rayon, work-stealing tasks, …),
  and how rows are shared among workers, each proved to yield the product.
- The eight-lane mode keeps its eight lanes in an array of `u32` that adds and
  multiplies modulo 2^32, as the lanes of a 256-bit vector register do; it
  does not use `std::simd` (which needs an unstable feature), so the compiler
  may or may not turn it into AVX2 instructions.
- `src/einstellungen.rs`: the settings and the list of matrix sizes.
- `src/pinning.rs`, `src/prozessor.rs`: the core pinning order and the
  processor description parsed from `/proc/cpuinfo` and `lscpu -p`.
- `app/`: command line, threads, timing, system queries and the result file.
