//! The index work around the discrete Fourier transform: the result holder
//! of a transform, the half spectrum kept by a real transform, and the full
//! Hermitian spectrum rebuilt from a half one before an inverse real
//! transform. Values are `f64` bit patterns.
use vstd::prelude::*;
use vstd::slice::slice_to_vec;
use crate::array::{array_elems, array_shape, NDArrayF64};
use crate::linalg::paired_vectors;

verus! {

/// The sign bit of an `f64`: flipping it negates the value (`-x`).
pub const F64_SIGN_BIT: u64 = 0x8000_0000_0000_0000u64;

/// The bit pattern of `-x` for the bit pattern `b` of `x`.
pub open spec fn neg_bits(b: u64) -> u64 {
    b ^ F64_SIGN_BIT
}

/// The spectrum of a transform, split into real and imaginary parts of one
/// length.
pub struct FftHandle {
    re: Vec<u64>,
    im: Vec<u64>,
}

impl FftHandle {
    /// Both parts have one length, which an allocation can hold.
    #[verifier::type_invariant]
    spec fn inv(self) -> bool {
        &&& self.re@.len() == self.im@.len()
        &&& self.re@.len() <= isize::MAX
    }

    /// The real parts.
    pub closed spec fn re_spec(&self) -> Seq<u64> {
        self.re@
    }

    /// The imaginary parts.
    pub closed spec fn im_spec(&self) -> Seq<u64> {
        self.im@
    }

    /// Holds a spectrum given by its real and imaginary parts.
    pub fn new(re: Vec<u64>, im: Vec<u64>) -> (h: FftHandle)
        requires
            re@.len() == im@.len(),
            re@.len() <= isize::MAX,
        ensures
            h.re_spec() == re@,
            h.im_spec() == im@,
    {
        FftHandle { re, im }
    }

    /// The spectrum of an empty signal.
    pub fn empty() -> (h: FftHandle)
        ensures
            h.re_spec() == Seq::<u64>::empty(),
            h.im_spec() == Seq::<u64>::empty(),
    {
        FftHandle { re: Vec::new(), im: Vec::new() }
    }
}

/// The real parts of the spectrum as a one-dimensional array.
pub fn np_fft_re_f64(h: &FftHandle) -> (r: NDArrayF64)
    ensures
        array_shape(r) == seq![h.re_spec().len() as usize],
        array_elems(r) == h.re_spec(),
{
    proof {
        use_type_invariant(h);
    }
    NDArrayF64::from_vec(slice_to_vec(h.re.as_slice()))
}

/// The imaginary parts of the spectrum as a one-dimensional array.
pub fn np_fft_im_f64(h: &FftHandle) -> (r: NDArrayF64)
    ensures
        array_shape(r) == seq![h.im_spec().len() as usize],
        array_elems(r) == h.im_spec(),
{
    proof {
        use_type_invariant(h);
    }
    NDArrayF64::from_vec(slice_to_vec(h.im.as_slice()))
}

/// How many bins the transform of `n` real samples keeps: `n / 2 + 1`
/// (the others are complex conjugates of these), none for no samples.
pub open spec fn spec_rfft_len(n: nat) -> nat {
    if n == 0 {
        0
    } else {
        n / 2 + 1
    }
}

/// The number of bins kept of the transform of `n` real samples.
pub fn rfft_len(n: usize) -> (r: usize)
    ensures
        r == spec_rfft_len(n as nat),
        n == 0 ==> r == 0,
        n > 0 ==> 2 * (r - 1) <= n < 2 * r,
{
    if n == 0 {
        0
    } else {
        n / 2 + 1
    }
}

/// A real transform of no samples keeps no bin; one of `n > 0` samples keeps
/// the bins `0..k` where `k - 1` is the largest index with `2 (k - 1) <= n`,
/// that is `k - 1 = n / 2` (the other bins are conjugates of these).
pub proof fn law_rfft_len(n: nat)
    ensures
        n == 0 ==> spec_rfft_len(n) == 0,
        n > 0 ==> 2 * (spec_rfft_len(n) - 1) <= n < 2 * spec_rfft_len(n),
        n > 0 ==> spec_rfft_len(n) <= n,
{
}

/// The first `k` entries of `v`.
fn prefix(v: &Vec<u64>, k: usize) -> (r: Vec<u64>)
    requires
        k <= v@.len(),
    ensures
        r@ == v@.take(k as int),
{
    let mut r: Vec<u64> = Vec::new();
    let mut i: usize = 0;
    while i < k
        invariant
            i <= k <= v@.len(),
            r@ == v@.take(i as int),
        decreases k - i,
    {
        r.push(v[i]);
        i = i + 1;
        assert(r@ =~= v@.take(i as int));
    }
    r
}

/// Keeps the first `n / 2 + 1` bins of the full spectrum of `n` real samples.
pub fn rfft_truncate(re: Vec<u64>, im: Vec<u64>) -> (h: FftHandle)
    requires
        re@.len() == im@.len(),
        re@.len() <= isize::MAX,
    ensures
        h.re_spec() == re@.take(spec_rfft_len(re@.len()) as int),
        h.im_spec() == im@.take(spec_rfft_len(re@.len()) as int),
{
    let k = rfft_len(re.len());
    let kr = prefix(&re, k);
    let ki = prefix(&im, k);
    FftHandle::new(kr, ki)
}

/// Real part of bin `k` of the spectrum of length `n` rebuilt from the half
/// spectrum `re`: bins below the half length are taken as they are; a bin
/// whose mirror `n - k` lies below it is the conjugate of the mirror; any
/// other bin is zero.
pub open spec fn hermitian_re(re: Seq<u64>, n: nat, k: int) -> u64 {
    if k < re.len() {
        re[k]
    } else if n - k < re.len() {
        re[n - k]
    } else {
        0
    }
}

/// Imaginary part of bin `k`, as for [`hermitian_re`], negated on mirrored
/// bins.
pub open spec fn hermitian_im(im: Seq<u64>, n: nat, k: int) -> u64 {
    if k < im.len() {
        im[k]
    } else if n - k < im.len() {
        neg_bits(im[n - k])
    } else {
        0
    }
}

/// The full spectrum of `n` bins, real and imaginary parts, rebuilt from the
/// half spectrum `re`, `im` of a real signal of length `n`.
pub fn hermitian_spectrum(re: &Vec<u64>, im: &Vec<u64>, n: usize) -> (r: (Vec<u64>, Vec<u64>))
    requires
        re@.len() == im@.len(),
    ensures
        r.0@.len() == n,
        r.1@.len() == n,
        forall|k: int| 0 <= k < n ==> #[trigger] r.0@[k] == hermitian_re(re@, n as nat, k),
        forall|k: int| 0 <= k < n ==> #[trigger] r.1@[k] == hermitian_im(im@, n as nat, k),
{
    let half = re.len();
    let mut out_re: Vec<u64> = Vec::new();
    let mut out_im: Vec<u64> = Vec::new();
    let mut k: usize = 0;
    while k < n
        invariant
            k <= n,
            half == re@.len(),
            re@.len() == im@.len(),
            out_re@.len() == k,
            out_im@.len() == k,
            forall|q: int| 0 <= q < k ==> #[trigger] out_re@[q] == hermitian_re(re@, n as nat, q),
            forall|q: int| 0 <= q < k ==> #[trigger] out_im@[q] == hermitian_im(im@, n as nat, q),
        decreases n - k,
    {
        if k < half {
            out_re.push(re[k]);
            out_im.push(im[k]);
        } else if n - k < half {
            out_re.push(re[n - k]);
            out_im.push(im[n - k] ^ F64_SIGN_BIT);
        } else {
            out_re.push(0u64);
            out_im.push(0u64);
        }
        k = k + 1;
    }
    (out_re, out_im)
}

/// The full spectrum for an inverse real transform with `n_out` samples from
/// the half spectrum held by the one-dimensional arrays `re` and `im`;
/// `None` when they are not one-dimensional of one length or `n_out` is
/// negative. (A spectrum of more than `isize::MAX` bytes cannot be
/// allocated.)
pub fn irfft_spectrum(re: &NDArrayF64, im: &NDArrayF64, n_out: i64) -> (r: Option<
    (Vec<u64>, Vec<u64>),
>)
    requires
        array_shape(*re).len() == 1 && array_shape(*im).len() == 1 && array_elems(*re).len()
            == array_elems(*im).len() && n_out >= 0 ==> 16 * n_out <= isize::MAX,
    ensures
        r is Some <==> (array_shape(*re).len() == 1 && array_shape(*im).len() == 1
            && array_elems(*re).len() == array_elems(*im).len() && n_out >= 0),
        r matches Some((sr, si)) ==> {
            &&& sr@.len() == n_out
            &&& si@.len() == n_out
            &&& forall|k: int|
                0 <= k < n_out ==> #[trigger] sr@[k] == hermitian_re(array_elems(*re), n_out as nat, k)
            &&& forall|k: int|
                0 <= k < n_out ==> #[trigger] si@[k] == hermitian_im(array_elems(*im), n_out as nat, k)
        },
{
    let (hr, hi) = match paired_vectors(re, im) {
        Some(p) => p,
        None => return None,
    };
    if n_out < 0 {
        return None;
    }
    Some(hermitian_spectrum(&hr, &hi, n_out as usize))
}

/// The spectrum of `n` bins given by `re`, `im` has the symmetry of the
/// transform of a real signal: every bin `k` in `1..n` is the complex
/// conjugate of bin `n - k`.
pub open spec fn is_hermitian(re: Seq<u64>, im: Seq<u64>) -> bool {
    &&& re.len() == im.len()
    &&& forall|k: int|
        1 <= k < re.len() ==> re[re.len() - k] == #[trigger] re[k] && im[re.len() - k] == neg_bits(
            im[k],
        )
}

/// Flipping the sign bit twice gives the bit pattern back.
proof fn lemma_neg_bits_involutive(b: u64)
    ensures
        neg_bits(neg_bits(b)) == b,
{
    assert((b ^ 0x8000_0000_0000_0000u64) ^ 0x8000_0000_0000_0000u64 == b) by (bit_vector);
}

/// Keeping the first `n / 2 + 1` bins of a Hermitian spectrum of `n` bins
/// and rebuilding the full spectrum from them gives every bin back.
pub proof fn law_hermitian_round_trip(re: Seq<u64>, im: Seq<u64>)
    requires
        is_hermitian(re, im),
    ensures
        forall|k: int|
            0 <= k < re.len() ==> #[trigger] hermitian_re(re.take(spec_rfft_len(re.len()) as int),
                re.len(), k) == re[k],
        forall|k: int|
            0 <= k < im.len() ==> #[trigger] hermitian_im(im.take(spec_rfft_len(re.len()) as int),
                re.len(), k) == im[k],
{
    let n = re.len();
    let h = spec_rfft_len(n) as int;
    assert forall|k: int| 0 <= k < n implies #[trigger] hermitian_re(re.take(h), n, k) == re[k] by {
        if k >= h {
            let m = n - k;
            assert(1 <= m < h);
            assert(n - m == k);
            assert(re[n - m] == re[m]);
        }
    }
    assert forall|k: int| 0 <= k < im.len() implies #[trigger] hermitian_im(im.take(h), n, k)
        == im[k] by {
        if k >= h {
            let m = n - k;
            assert(1 <= m < h);
            assert(n - m == k);
            assert(re[n - m] == re[m]);
            assert(im[n - m] == neg_bits(im[m]));
            lemma_neg_bits_involutive(im[k]);
            assert(neg_bits(im[m]) == neg_bits(neg_bits(im[k])));
        }
    }
}

} // verus!
