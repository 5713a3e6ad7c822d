use chuks_numpy::array::{
    fill_array, ixdyn_from, np_array_copy_f64, np_array_dim, np_array_eye_f64,
    np_array_from_data_f64, np_array_full_f64, np_array_get_f64, np_array_len, np_array_ones_f64,
    np_array_rank, np_array_reshape_f64, np_array_set_f64, np_array_slice_f64,
    np_array_take_f64, np_array_to_data_f64, np_array_transpose_f64, np_array_zeros_f64,
    NDArrayF64,
};

fn bits(xs: &[f64]) -> Vec<u64> {
    xs.iter().map(|x| x.to_bits()).collect()
}

fn floats(a: &NDArrayF64) -> Vec<f64> {
    a.to_vec().iter().map(|b| f64::from_bits(*b)).collect()
}

fn arange(n: usize) -> Vec<u64> {
    (0..n).map(|i| (i as f64).to_bits()).collect()
}

fn matrix_3x4() -> NDArrayF64 {
    np_array_from_data_f64(2, &[3, 4], arange(12)).unwrap()
}

#[test]
fn zeros_has_requested_shape() {
    let a = np_array_zeros_f64(2, &[2, 3]).unwrap();
    assert_eq!(a.shape(), vec![2, 3]);
    assert_eq!(np_array_len(&a), 6);
    assert_eq!(np_array_rank(&a), 2);
    assert_eq!(np_array_dim(&a, 0), 2);
    assert_eq!(np_array_dim(&a, 1), 3);
    assert_eq!(np_array_dim(&a, 2), -1);
    assert_eq!(np_array_dim(&a, -1), -1);
    assert_eq!(floats(&a), vec![0.0; 6]);
}

#[test]
fn negative_axis_lengths_count_as_zero() {
    let a = np_array_zeros_f64(2, &[-4, 3]).unwrap();
    assert_eq!(a.shape(), vec![0, 3]);
    assert_eq!(np_array_len(&a), 0);
}

#[test]
fn negative_rank_is_refused() {
    assert!(np_array_zeros_f64(-1, &[]).is_none());
    assert!(np_array_ones_f64(-1, &[]).is_none());
    assert!(np_array_full_f64(-2, &[], 0).is_none());
    assert!(np_array_from_data_f64(-1, &[], vec![]).is_none());
}

#[test]
fn rank_zero_is_a_scalar() {
    let a = np_array_full_f64(0, &[], 7.5f64.to_bits()).unwrap();
    assert_eq!(a.shape(), Vec::<usize>::new());
    assert_eq!(floats(&a), vec![7.5]);
}

#[test]
fn ones_and_full_fill_every_element() {
    let a = np_array_ones_f64(1, &[4]).unwrap();
    assert_eq!(floats(&a), vec![1.0; 4]);
    let b = np_array_full_f64(2, &[2, 2], 0.001f64.to_bits()).unwrap();
    assert_eq!(floats(&b), vec![0.001; 4]);
}

#[test]
fn get_out_of_range_reads_zero() {
    let a = matrix_3x4();
    assert_eq!(f64::from_bits(np_array_get_f64(&a, &[1, 2])), 6.0);
    assert_eq!(np_array_get_f64(&a, &[3, 0]), 0);
    assert_eq!(np_array_get_f64(&a, &[0, -1]), 0);
    assert!(ixdyn_from(&a, &[2, 3]) == Some(vec![2, 3]));
    assert!(ixdyn_from(&a, &[2, 4]).is_none());
}

#[test]
fn set_then_get_reads_the_written_value() {
    let mut a = matrix_3x4();
    assert_eq!(np_array_set_f64(&mut a, &[2, 1], 42.0f64.to_bits()), 0);
    assert_eq!(f64::from_bits(np_array_get_f64(&a, &[2, 1])), 42.0);
    assert_eq!(f64::from_bits(np_array_get_f64(&a, &[2, 2])), 10.0);
    assert_eq!(f64::from_bits(np_array_get_f64(&a, &[0, 0])), 0.0);
}

#[test]
fn set_out_of_range_fails_and_changes_nothing() {
    let mut a = matrix_3x4();
    assert_eq!(np_array_set_f64(&mut a, &[3, 0], 1.0f64.to_bits()), -1);
    assert_eq!(np_array_set_f64(&mut a, &[-1, 0], 1.0f64.to_bits()), -1);
    assert_eq!(a.to_vec(), arange(12));
}

#[test]
fn eye_is_the_identity() {
    let e = np_array_eye_f64(3).unwrap();
    assert_eq!(e.shape(), vec![3, 3]);
    assert_eq!(floats(&e), vec![1.0, 0.0, 0.0, 0.0, 1.0, 0.0, 0.0, 0.0, 1.0]);
    assert!(np_array_eye_f64(-1).is_none());
    let z = np_array_eye_f64(0).unwrap();
    assert_eq!(z.shape(), vec![0, 0]);
}

#[test]
fn from_data_needs_one_element_per_position() {
    assert!(np_array_from_data_f64(2, &[2, 3], arange(5)).is_none());
    assert!(np_array_from_data_f64(2, &[2, 3], arange(7)).is_none());
    let a = np_array_from_data_f64(2, &[2, 3], arange(6)).unwrap();
    assert_eq!(np_array_to_data_f64(&a), arange(6));
    assert_eq!(a.shape(), vec![2, 3]);
}

#[test]
fn fill_array_checks_the_count() {
    assert!(fill_array(&vec![2, 2], arange(3)).is_none());
    let a = fill_array(&vec![2, 2], arange(4)).unwrap();
    assert_eq!(a.shape(), vec![2, 2]);
    assert_eq!(a.to_vec(), arange(4));
    assert!(fill_array(&vec![usize::MAX, 2], vec![]).is_none());
}

#[test]
fn reshape_keeps_row_major_order() {
    let a = NDArrayF64::from_vec(arange(12));
    let m = np_array_reshape_f64(&a, 2, &[3, 4]).unwrap();
    assert_eq!(m.shape(), vec![3, 4]);
    assert_eq!(m.to_vec(), arange(12));
    assert_eq!(f64::from_bits(np_array_get_f64(&m, &[1, 0])), 4.0);
}

#[test]
fn reshape_fails_on_product_mismatch() {
    let a = NDArrayF64::from_vec(arange(12));
    assert!(np_array_reshape_f64(&a, 2, &[5, 2]).is_none());
    assert!(np_array_reshape_f64(&a, -1, &[]).is_none());
}

#[test]
fn slice_upper_right_block() {
    let m = matrix_3x4();
    let block = np_array_slice_f64(&m, 2, &[0, 1], &[2, 4], &[1, 1]).unwrap();
    assert_eq!(block.shape(), vec![2, 3]);
    assert_eq!(floats(&block), vec![1.0, 2.0, 3.0, 5.0, 6.0, 7.0]);
}

#[test]
fn slice_negative_indices_count_from_the_end() {
    let a = NDArrayF64::from_vec(arange(10));
    let tail = np_array_slice_f64(&a, 1, &[-3], &[10], &[1]).unwrap();
    assert_eq!(floats(&tail), vec![7.0, 8.0, 9.0]);
    let mid = np_array_slice_f64(&a, 1, &[1], &[-1], &[3]).unwrap();
    assert_eq!(floats(&mid), vec![1.0, 4.0, 7.0]);
    let clamped = np_array_slice_f64(&a, 1, &[-20], &[20], &[4]).unwrap();
    assert_eq!(floats(&clamped), vec![0.0, 4.0, 8.0]);
    let empty = np_array_slice_f64(&a, 1, &[5], &[2], &[1]).unwrap();
    assert_eq!(empty.shape(), vec![0]);
}

#[test]
fn slice_refuses_non_positive_steps_and_wrong_rank() {
    let m = matrix_3x4();
    assert!(np_array_slice_f64(&m, 2, &[0, 0], &[3, 4], &[1, 0]).is_none());
    assert!(np_array_slice_f64(&m, 2, &[0, 0], &[3, 4], &[-1, 1]).is_none());
    assert!(np_array_slice_f64(&m, 1, &[0], &[3], &[1]).is_none());
    assert!(np_array_slice_f64(&m, -1, &[], &[], &[]).is_none());
}

#[test]
fn take_selects_columns() {
    let m = matrix_3x4();
    let cols = np_array_take_f64(&m, 1, &[0, 3]).unwrap();
    assert_eq!(cols.shape(), vec![3, 2]);
    assert_eq!(floats(&cols), vec![0.0, 3.0, 4.0, 7.0, 8.0, 11.0]);
    let rows = np_array_take_f64(&m, 0, &[2, 2]).unwrap();
    assert_eq!(rows.shape(), vec![2, 4]);
    assert_eq!(floats(&rows), vec![8.0, 9.0, 10.0, 11.0, 8.0, 9.0, 10.0, 11.0]);
}

#[test]
fn take_refuses_bad_axis_or_index() {
    let m = matrix_3x4();
    assert!(np_array_take_f64(&m, 2, &[0]).is_none());
    assert!(np_array_take_f64(&m, -1, &[0]).is_none());
    assert!(np_array_take_f64(&m, 1, &[4]).is_none());
    assert!(np_array_take_f64(&m, 1, &[-1]).is_none());
    let none = np_array_take_f64(&m, 1, &[]).unwrap();
    assert_eq!(none.shape(), vec![3, 0]);
}

#[test]
fn transpose_reverses_the_axes() {
    let a = np_array_from_data_f64(2, &[2, 3], arange(6)).unwrap();
    let t = np_array_transpose_f64(&a);
    assert_eq!(t.shape(), vec![3, 2]);
    assert_eq!(floats(&t), vec![0.0, 3.0, 1.0, 4.0, 2.0, 5.0]);
    let tt = np_array_transpose_f64(&t);
    assert_eq!(tt.shape(), vec![2, 3]);
    assert_eq!(tt.to_vec(), a.to_vec());
}

#[test]
fn transpose_of_three_axes() {
    let a = np_array_from_data_f64(3, &[2, 1, 3], arange(6)).unwrap();
    let t = np_array_transpose_f64(&a);
    assert_eq!(t.shape(), vec![3, 1, 2]);
    assert_eq!(f64::from_bits(np_array_get_f64(&t, &[2, 0, 1])), 5.0);
    assert_eq!(f64::from_bits(np_array_get_f64(&t, &[1, 0, 0])), 1.0);
}

#[test]
fn copy_is_independent() {
    let a = matrix_3x4();
    let mut c = np_array_copy_f64(&a);
    assert_eq!(c.shape(), a.shape());
    assert_eq!(c.to_vec(), a.to_vec());
    np_array_set_f64(&mut c, &[0, 0], 9.0f64.to_bits());
    assert_eq!(f64::from_bits(np_array_get_f64(&a, &[0, 0])), 0.0);
}

#[test]
fn from_vec_is_one_dimensional() {
    let a = NDArrayF64::from_vec(bits(&[1.5, -2.0]));
    assert_eq!(a.shape(), vec![2]);
    assert_eq!(floats(&a), vec![1.5, -2.0]);
}

#[test]
fn slice_every_other_column() {
    let m = matrix_3x4();
    let e = np_array_slice_f64(&m, 2, &[0, 0], &[3, 4], &[1, 2]).unwrap();
    assert_eq!(e.shape(), vec![3, 2]);
    assert_eq!(floats(&e), vec![0.0, 2.0, 4.0, 6.0, 8.0, 10.0]);
}

#[test]
fn set_on_zeros_then_get() {
    let mut m = np_array_zeros_f64(2, &[2, 3]).unwrap();
    assert_eq!(np_array_set_f64(&mut m, &[0, 1], 7.0f64.to_bits()), 0);
    assert_eq!(f64::from_bits(np_array_get_f64(&m, &[0, 1])), 7.0);
    assert_eq!(np_array_get_f64(&m, &[5, 5]), 0);
}

#[test]
fn stored_elements_are_contiguous() {
    let a = matrix_3x4();
    assert_eq!(a.as_slice().map(|s| s.to_vec()), Some(arange(12)));
    let t = np_array_transpose_f64(&a);
    assert_eq!(t.as_slice().map(|s| s.to_vec()), Some(t.to_vec()));
    let s = np_array_slice_f64(&a, 2, &[0, 1], &[3, 4], &[2, 2]).unwrap();
    assert_eq!(s.as_slice().map(|x| x.to_vec()), Some(s.to_vec()));
}

#[test]
fn slice_start_past_the_end_is_empty() {
    let a = NDArrayF64::from_vec(arange(4));
    let e = np_array_slice_f64(&a, 1, &[10], &[20], &[1]).unwrap();
    assert_eq!(e.shape(), vec![0]);
    let m = matrix_3x4();
    let rows = np_array_slice_f64(&m, 2, &[5, 0], &[9, 4], &[1, 1]).unwrap();
    assert_eq!(rows.shape(), vec![0, 4]);
}
