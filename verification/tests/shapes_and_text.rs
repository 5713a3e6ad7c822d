use chuks_numpy::np_version;
use chuks_numpy::shape::{dims_vec, read_dims, size_of_shape_checked};
use chuks_numpy::text::{collect_chars, find_rel, parse_usize_at, skip_ws_end, skip_ws_start};

#[test]
fn version_names_the_backends() {
    assert_eq!(
        np_version(),
        "chuks_numpy_shim 1.0.0; ndarray 0.16; nalgebra 0.33; rustfft 6; rand 0.8; zip 0.6"
    );
}

#[test]
fn requested_dimensions() {
    assert_eq!(read_dims(2, &[3, -1]), Some(vec![3, 0]));
    assert_eq!(read_dims(-1, &[]), None);
    assert_eq!(read_dims(0, &[]), Some(vec![]));
    assert_eq!(dims_vec(0, &[]), Vec::<usize>::new());
    assert_eq!(dims_vec(-3, &[]), Vec::<usize>::new());
    assert_eq!(dims_vec(3, &[2, -5, 4]), vec![2, 0, 4]);
}

#[test]
fn element_counts() {
    assert_eq!(size_of_shape_checked(&[2, 3, 4]), Some(24));
    assert_eq!(size_of_shape_checked(&[]), Some(1));
    assert_eq!(size_of_shape_checked(&[0, usize::MAX]), None);
    assert_eq!(size_of_shape_checked(&[0, 5]), Some(0));
    assert_eq!(size_of_shape_checked(&[usize::MAX / 2, 3]), None);
    assert_eq!(size_of_shape_checked(&[isize::MAX as usize]), Some(isize::MAX as usize));
}

#[test]
fn text_scanning() {
    let v = collect_chars("  ab, 42 ");
    assert_eq!(v.len(), 9);
    assert_eq!(find_rel(&v, 0, &collect_chars(",")), Some(4));
    assert_eq!(find_rel(&v, 5, &collect_chars(",")), None);
    assert_eq!(skip_ws_start(&v, 0, 9), 2);
    assert_eq!(skip_ws_end(&v, 0, 9), 8);
    assert_eq!(parse_usize_at(&v, 6, 8), Some(42));
    assert_eq!(parse_usize_at(&v, 2, 4), None);
    assert_eq!(parse_usize_at(&v, 6, 6), None);
}
