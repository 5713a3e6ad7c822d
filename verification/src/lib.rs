//! N-dimensional `f64` arrays in the style of NumPy, with verified shape
//! arithmetic, broadcasting, slicing, masking, sampling, the index work of
//! the Fourier transforms and the `.npy` / `.npz` file formats.
use vstd::prelude::*;
use std::sync::Arc;
use vstd::string::StringExecFns;

pub mod array;
pub mod broadcast;
pub mod elementwise;
pub mod fft;
pub mod linalg;
pub mod npy;
pub mod npz;
pub mod random;
pub mod reduce;
pub mod shape;
pub mod text;

verus! {

/// The library's name and version, with those of the crates it builds on.
pub fn np_version() -> (r: String)
    ensures
        r@ == "chuks_numpy_shim 1.0.0; ndarray 0.16; nalgebra 0.33; rustfft 6; rand 0.8; zip 0.6"@,
{
    String::from_str(
        "chuks_numpy_shim 1.0.0; ndarray 0.16; nalgebra 0.33; rustfft 6; rand 0.8; zip 0.6",
    )
}

/// Keeps `Arc` among the items the library names; it does nothing.
pub fn _link_arc(_unused: Arc<()>) {
}

} // verus!
