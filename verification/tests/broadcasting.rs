use chuks_numpy::array::{np_array_from_data_f64, NDArrayF64};
use chuks_numpy::broadcast::broadcast_shape;
use chuks_numpy::elementwise::{
    binop_broadcast, broadcast_view, is_true, map_elements, np_binop_inplace_f64,
    np_binop_inplace_scalar_f64, np_copyto_f64, np_masked_assign_scalar_f64, np_where_f64,
};

fn bits(xs: &[f64]) -> Vec<u64> {
    xs.iter().map(|x| x.to_bits()).collect()
}

fn floats(a: &NDArrayF64) -> Vec<f64> {
    a.to_vec().iter().map(|b| f64::from_bits(*b)).collect()
}

fn add(x: u64, y: u64) -> u64 {
    (f64::from_bits(x) + f64::from_bits(y)).to_bits()
}

#[test]
fn broadcast_matrix_with_row() {
    assert_eq!(broadcast_shape(&[3, 4], &[4]), Some(vec![3, 4]));
    assert_eq!(broadcast_shape(&[4], &[3, 4]), Some(vec![3, 4]));
}

#[test]
fn broadcast_stretches_ones() {
    assert_eq!(broadcast_shape(&[2, 1], &[1, 3]), Some(vec![2, 3]));
    assert_eq!(broadcast_shape(&[5, 1, 4], &[3, 1]), Some(vec![5, 3, 4]));
    assert_eq!(broadcast_shape(&[0], &[1]), Some(vec![0]));
    assert_eq!(broadcast_shape(&[0, 3], &[0, 1]), Some(vec![0, 3]));
}

#[test]
fn broadcast_refuses_mismatched_lengths() {
    assert_eq!(broadcast_shape(&[3], &[4]), None);
    assert_eq!(broadcast_shape(&[2, 3], &[3, 3]), None);
}

#[test]
fn broadcast_identity_and_commutativity() {
    assert_eq!(broadcast_shape(&[2, 3], &[]), Some(vec![2, 3]));
    assert_eq!(broadcast_shape(&[0], &[]), Some(vec![0]));
    assert_eq!(broadcast_shape(&[2, 3], &[2, 3]), Some(vec![2, 3]));
    let ab = broadcast_shape(&[1, 7], &[6, 1]);
    let ba = broadcast_shape(&[6, 1], &[1, 7]);
    assert_eq!(ab, ba);
}

#[test]
fn broadcast_associativity_example() {
    let left = broadcast_shape(&broadcast_shape(&[4, 1], &[3]).unwrap(), &[2, 1, 1]).unwrap();
    let right = broadcast_shape(&[4, 1], &broadcast_shape(&[3], &[2, 1, 1]).unwrap()).unwrap();
    assert_eq!(left, vec![2, 4, 3]);
    assert_eq!(left, right);
}

#[test]
fn binop_adds_a_row_to_every_row() {
    let m = np_array_from_data_f64(2, &[2, 3], bits(&[0.0, 1.0, 2.0, 3.0, 4.0, 5.0])).unwrap();
    let row = NDArrayF64::from_vec(bits(&[10.0, 20.0, 30.0]));
    let s = binop_broadcast(&m, &row, add).unwrap();
    assert_eq!(s.shape(), vec![2, 3]);
    assert_eq!(floats(&s), vec![10.0, 21.0, 32.0, 13.0, 24.0, 35.0]);
}

#[test]
fn binop_outer_sum_of_column_and_row() {
    let col = np_array_from_data_f64(2, &[2, 1], bits(&[1.0, 2.0])).unwrap();
    let row = np_array_from_data_f64(2, &[1, 3], bits(&[10.0, 20.0, 30.0])).unwrap();
    let s = binop_broadcast(&col, &row, add).unwrap();
    assert_eq!(s.shape(), vec![2, 3]);
    assert_eq!(floats(&s), vec![11.0, 21.0, 31.0, 12.0, 22.0, 32.0]);
}

#[test]
fn binop_refuses_incompatible_shapes() {
    let a = NDArrayF64::from_vec(bits(&[1.0, 2.0, 3.0]));
    let b = NDArrayF64::from_vec(bits(&[1.0, 2.0]));
    assert!(binop_broadcast(&a, &b, add).is_none());
}

#[test]
fn broadcast_view_repeats_a_row() {
    let row = NDArrayF64::from_vec(bits(&[1.0, 2.0]));
    let v = broadcast_view(&row, &vec![3, 2]).unwrap();
    assert_eq!(floats(&v), vec![1.0, 2.0, 1.0, 2.0, 1.0, 2.0]);
    assert!(broadcast_view(&row, &vec![3, 3]).is_none());
}

#[test]
fn map_applies_to_every_element() {
    let a = NDArrayF64::from_vec(bits(&[1.0, -2.0, 3.0]));
    let neg = map_elements(&a, |x: u64| (-f64::from_bits(x)).to_bits());
    assert_eq!(floats(&neg), vec![-1.0, 2.0, -3.0]);
}

#[test]
fn inplace_add_accumulates() {
    let mut buf = NDArrayF64::from_vec(bits(&[0.0; 4]));
    let inc = NDArrayF64::from_vec(bits(&[0.5; 4]));
    for _ in 0..4 {
        assert_eq!(np_binop_inplace_f64(&mut buf, &inc, add), 0);
    }
    assert_eq!(floats(&buf), vec![2.0; 4]);
}

#[test]
fn inplace_add_refuses_a_source_that_does_not_stretch() {
    let mut buf = NDArrayF64::from_vec(bits(&[0.0; 4]));
    let other = NDArrayF64::from_vec(bits(&[1.0; 3]));
    assert_eq!(np_binop_inplace_f64(&mut buf, &other, add), -1);
    assert_eq!(floats(&buf), vec![0.0; 4]);
    let wide = np_array_from_data_f64(2, &[2, 4], bits(&[1.0; 8])).unwrap();
    assert_eq!(np_binop_inplace_f64(&mut buf, &wide, add), -1);
}

#[test]
fn inplace_scalar_applies_everywhere() {
    let mut a = NDArrayF64::from_vec(bits(&[1.0, 2.0]));
    let r = np_binop_inplace_scalar_f64(&mut a, |x: u64| (f64::from_bits(x) * 3.0).to_bits());
    assert_eq!(r, 0);
    assert_eq!(floats(&a), vec![3.0, 6.0]);
}

#[test]
fn mask_truth_of_special_values() {
    assert!(is_true(1.0f64.to_bits()));
    assert!(is_true((-0.5f64).to_bits()));
    assert!(is_true(f64::INFINITY.to_bits()));
    assert!(!is_true(0.0f64.to_bits()));
    assert!(!is_true((-0.0f64).to_bits()));
    assert!(!is_true(f64::NAN.to_bits()));
}

#[test]
fn where_relu() {
    let a = NDArrayF64::from_vec(bits(&[-2.0, -1.0, 0.0, 1.0, 2.0]));
    let mask = NDArrayF64::from_vec(bits(&[0.0, 0.0, 1.0, 1.0, 1.0]));
    let zeros = NDArrayF64::from_vec(bits(&[0.0; 5]));
    let relu = np_where_f64(&mask, &a, &zeros).unwrap();
    assert_eq!(floats(&relu), vec![0.0, 0.0, 0.0, 1.0, 2.0]);
}

#[test]
fn where_broadcasts_all_three() {
    let mask = np_array_from_data_f64(2, &[2, 1], bits(&[1.0, f64::NAN])).unwrap();
    let x = NDArrayF64::from_vec(bits(&[1.0, 2.0, 3.0]));
    let y = np_array_from_data_f64(0, &[], bits(&[-1.0])).unwrap();
    let w = np_where_f64(&mask, &x, &y).unwrap();
    assert_eq!(w.shape(), vec![2, 3]);
    assert_eq!(floats(&w), vec![1.0, 2.0, 3.0, -1.0, -1.0, -1.0]);
    let bad = NDArrayF64::from_vec(bits(&[1.0, 2.0]));
    assert!(np_where_f64(&mask, &x, &bad).is_none());
}

#[test]
fn masked_assign_sets_negatives_to_zero() {
    let mut a = NDArrayF64::from_vec(bits(&[-2.0, -1.0, 0.0, 1.0, 2.0]));
    let mask = NDArrayF64::from_vec(bits(&[1.0, 1.0, 0.0, 0.0, 0.0]));
    assert_eq!(np_masked_assign_scalar_f64(&mut a, &mask, 0.0f64.to_bits()), 0);
    assert_eq!(floats(&a), vec![0.0, 0.0, 0.0, 1.0, 2.0]);
    let short = NDArrayF64::from_vec(bits(&[1.0, 1.0]));
    assert_eq!(np_masked_assign_scalar_f64(&mut a, &short, 5.0f64.to_bits()), -2);
    assert_eq!(floats(&a), vec![0.0, 0.0, 0.0, 1.0, 2.0]);
}

#[test]
fn copyto_copies_where_the_mask_is_true() {
    let mut dst = np_array_from_data_f64(2, &[2, 2], bits(&[1.0, 2.0, 3.0, 4.0])).unwrap();
    let src = NDArrayF64::from_vec(bits(&[9.0, 8.0]));
    let mask = np_array_from_data_f64(2, &[2, 1], bits(&[0.0, 1.0])).unwrap();
    assert_eq!(np_copyto_f64(&mut dst, &src, &mask), 0);
    assert_eq!(floats(&dst), vec![1.0, 2.0, 9.0, 8.0]);
}

#[test]
fn copyto_refuses_shapes_that_do_not_stretch() {
    let mut dst = NDArrayF64::from_vec(bits(&[1.0, 2.0]));
    let src = NDArrayF64::from_vec(bits(&[9.0, 8.0, 7.0]));
    let mask = NDArrayF64::from_vec(bits(&[1.0, 1.0]));
    assert_eq!(np_copyto_f64(&mut dst, &src, &mask), -2);
    assert_eq!(floats(&dst), vec![1.0, 2.0]);
}

#[test]
fn zero_length_axis_against_one_gives_an_empty_result() {
    let empty = NDArrayF64::from_vec(vec![]);
    let one = NDArrayF64::from_vec(bits(&[1.0]));
    let s = binop_broadcast(&empty, &one, add).unwrap();
    assert_eq!(s.shape(), vec![0]);
    let e2 = np_array_from_data_f64(2, &[0, 2], vec![]).unwrap();
    let row = NDArrayF64::from_vec(bits(&[1.0, 2.0]));
    assert_eq!(broadcast_shape(&[0, 2], &[2]), Some(vec![0, 2]));
    let t = binop_broadcast(&e2, &row, add).unwrap();
    assert_eq!(t.shape(), vec![0, 2]);
    let w = np_where_f64(&one, &empty, &one).unwrap();
    assert_eq!(w.shape(), vec![0]);
}
