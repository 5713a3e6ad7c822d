use chuks_numpy::array::{np_array_from_data_f64, NDArrayF64};
use chuks_numpy::fft::{
    hermitian_spectrum, irfft_spectrum, np_fft_im_f64, np_fft_re_f64, rfft_len, rfft_truncate,
    FftHandle,
};

fn bits(xs: &[f64]) -> Vec<u64> {
    xs.iter().map(|x| x.to_bits()).collect()
}

fn floats(v: &[u64]) -> Vec<f64> {
    v.iter().map(|b| f64::from_bits(*b)).collect()
}

#[test]
fn kept_bins_of_a_real_transform() {
    assert_eq!(rfft_len(0), 0);
    assert_eq!(rfft_len(1), 1);
    assert_eq!(rfft_len(4), 3);
    assert_eq!(rfft_len(5), 3);
    assert_eq!(rfft_len(8), 5);
}

#[test]
fn truncation_keeps_the_first_half() {
    let re = bits(&[10.0, -2.0, -2.0, -2.0]);
    let im = bits(&[0.0, 2.0, 0.0, -2.0]);
    let h = rfft_truncate(re, im);
    let r = np_fft_re_f64(&h);
    let i = np_fft_im_f64(&h);
    assert_eq!(r.shape(), vec![3]);
    assert_eq!(floats(&r.to_vec()), vec![10.0, -2.0, -2.0]);
    assert_eq!(floats(&i.to_vec()), vec![0.0, 2.0, 0.0]);
}

#[test]
fn empty_spectrum() {
    let h = FftHandle::empty();
    assert_eq!(np_fft_re_f64(&h).shape(), vec![0]);
    assert_eq!(np_fft_im_f64(&h).shape(), vec![0]);
    let t = rfft_truncate(vec![], vec![]);
    assert_eq!(np_fft_re_f64(&t).shape(), vec![0]);
}

#[test]
fn hermitian_rebuild_of_an_even_length() {
    // The spectrum of [1, 2, 3, 4] is [10, -2+2i, -2, -2-2i].
    let re = bits(&[10.0, -2.0, -2.0]);
    let im = bits(&[0.0, 2.0, 0.0]);
    let (r, i) = hermitian_spectrum(&re, &im, 4);
    assert_eq!(floats(&r), vec![10.0, -2.0, -2.0, -2.0]);
    assert_eq!(floats(&i), vec![0.0, 2.0, 0.0, -2.0]);
}

#[test]
fn hermitian_rebuild_of_an_odd_length() {
    let re = bits(&[1.0, 2.0, 3.0]);
    let im = bits(&[0.0, 4.0, 5.0]);
    let (r, i) = hermitian_spectrum(&re, &im, 5);
    assert_eq!(floats(&r), vec![1.0, 2.0, 3.0, 3.0, 2.0]);
    assert_eq!(floats(&i), vec![0.0, 4.0, 5.0, -5.0, -4.0]);
}

#[test]
fn hermitian_rebuild_fills_missing_bins_with_zero() {
    let re = bits(&[1.0]);
    let im = bits(&[0.5]);
    let (r, i) = hermitian_spectrum(&re, &im, 4);
    assert_eq!(floats(&r), vec![1.0, 0.0, 0.0, 0.0]);
    assert_eq!(floats(&i), vec![0.5, 0.0, 0.0, 0.0]);
    let (r2, _) = hermitian_spectrum(&bits(&[1.0, 2.0, 3.0, 4.0]), &bits(&[0.0; 4]), 2);
    assert_eq!(floats(&r2), vec![1.0, 2.0]);
}

#[test]
fn negating_zero_gives_negative_zero() {
    let (_, i) = hermitian_spectrum(&bits(&[1.0, 2.0]), &bits(&[0.0, 0.0]), 3);
    assert_eq!(i[2], (-0.0f64).to_bits());
}

#[test]
fn irfft_inputs_are_checked() {
    let re = NDArrayF64::from_vec(bits(&[10.0, -2.0, -2.0]));
    let im = NDArrayF64::from_vec(bits(&[0.0, 2.0, 0.0]));
    let (r, i) = irfft_spectrum(&re, &im, 4).unwrap();
    assert_eq!(floats(&r), vec![10.0, -2.0, -2.0, -2.0]);
    assert_eq!(floats(&i), vec![0.0, 2.0, 0.0, -2.0]);
    assert!(irfft_spectrum(&re, &im, -1).is_none());
    let short = NDArrayF64::from_vec(bits(&[1.0]));
    assert!(irfft_spectrum(&re, &short, 4).is_none());
    let flat = np_array_from_data_f64(2, &[1, 3], bits(&[0.0; 3])).unwrap();
    assert!(irfft_spectrum(&flat, &im, 4).is_none());
    let (e, _) = irfft_spectrum(&re, &im, 0).unwrap();
    assert!(e.is_empty());
}

#[test]
fn round_trip_of_truncation_and_rebuild() {
    let full_re = bits(&[10.0, -2.0, -2.0, -2.0]);
    let full_im = bits(&[0.0, 2.0, 0.0, -2.0]);
    let h = rfft_truncate(full_re.clone(), full_im.clone());
    let kr = np_fft_re_f64(&h).to_vec();
    let ki = np_fft_im_f64(&h).to_vec();
    let (r, i) = hermitian_spectrum(&kr, &ki, 4);
    assert_eq!(r, full_re);
    assert_eq!(i, full_im);
}
