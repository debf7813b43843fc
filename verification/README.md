# faer_core

Dense matrix views and owned column-major matrices, with proved contracts.

- `src/layout.rs`: `MatLayout`, the shape of a strided view, and the proofs that
  transposition, reversal, blocks, splits and diagonals read the elements they claim.
- `src/mat_ref.rs`, `src/mat_mut.rs`: shared and mutable views over a buffer.
- `src/mat.rs`: `Mat`, an owned matrix whose columns start `row_capacity` elements
  apart, with verified resizing, reservation, reads and writes.
- `src/parallel.rs`: `Parallelism`, the split of work between tasks, and chunking.
- `src/conj.rs`: `Conj`, the conjugation state of a view, and how a view reads its
  elements through a conjugation function.
- `app/`: the floating-point element types and their arithmetic, temporary matrices
  in `dyn_stack` buffers, and the rayon-driven `join_raw` and `for_each_raw`.
