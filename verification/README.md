# chuks_numpy

N-dimensional `f64` arrays in the style of NumPy, as a Verus-verified Rust
library with a thin C ABI around it.

- `src/` is the verified library. Arrays are held by `ndarray` as the bit
  patterns of their elements; their shape and row-major elements are the
  model every contract speaks of (`array_shape`, `array_elems`).
  - `shape`, `broadcast`: shape arithmetic, row-major indexing and the
    broadcasting rules, with their algebraic laws.
  - `array`: construction, element access, reshape, transpose, slicing and
    selection.
  - `elementwise`, `reduce`: kernels that decide which elements meet; the
    arithmetic is a caller-supplied closure on bit patterns.
  - `linalg`, `fft`: the shape checks and index work around the matrix
    routines and the Fourier transforms.
  - `random`: shuffling and drawing, split into drawing positions (from
    `rand`) and applying them (verified for every draw).
  - `npy`, `npz`, `text`: the `.npy` format (header writer and parser, whole
    streams, round-trip laws) and `.npz` entry names.
- `app/` is the C ABI: pointer handling, file and archive I/O, and the
  floating-point work done with nalgebra, rustfft and rand_distr.
- `tests/` runs the library on concrete inputs.
