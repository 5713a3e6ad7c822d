use chuks_numpy::array::{np_array_from_data_f64, NDArrayF64};
use chuks_numpy::reduce::{all_nonzero, any_nonzero, is_nonzero, np_reduce_axis_f64};

fn bits(xs: &[f64]) -> Vec<u64> {
    xs.iter().map(|x| x.to_bits()).collect()
}

fn floats(a: &NDArrayF64) -> Vec<f64> {
    a.to_vec().iter().map(|b| f64::from_bits(*b)).collect()
}

fn lane_min(v: &Vec<u64>) -> u64 {
    v.iter().map(|b| f64::from_bits(*b)).fold(f64::INFINITY, f64::min).to_bits()
}

fn lane_sum(v: &Vec<u64>) -> u64 {
    v.iter().map(|b| f64::from_bits(*b)).sum::<f64>().to_bits()
}

fn grades() -> NDArrayF64 {
    np_array_from_data_f64(
        2,
        &[3, 3],
        bits(&[85.0, 90.0, 78.0, 88.0, 76.0, 92.0, 70.0, 85.0, 95.0]),
    )
    .unwrap()
}

#[test]
fn min_across_students() {
    let per_subject = np_reduce_axis_f64(&grades(), 0, false, lane_min).unwrap();
    assert_eq!(per_subject.shape(), vec![3]);
    assert_eq!(floats(&per_subject), vec![70.0, 76.0, 78.0]);
}

#[test]
fn sum_across_subjects() {
    let per_student = np_reduce_axis_f64(&grades(), 1, false, lane_sum).unwrap();
    assert_eq!(floats(&per_student), vec![253.0, 256.0, 250.0]);
}

#[test]
fn keepdims_keeps_the_axis_with_length_one() {
    let a = np_array_from_data_f64(2, &[2, 3], bits(&[1.0, 2.0, 3.0, 4.0, 5.0, 6.0])).unwrap();
    let s = np_reduce_axis_f64(&a, 1, true, lane_sum).unwrap();
    assert_eq!(s.shape(), vec![2, 1]);
    assert_eq!(floats(&s), vec![6.0, 15.0]);
    let c = np_reduce_axis_f64(&a, 0, true, lane_sum).unwrap();
    assert_eq!(c.shape(), vec![1, 3]);
    assert_eq!(floats(&c), vec![5.0, 7.0, 9.0]);
}

#[test]
fn reduce_refuses_a_missing_axis() {
    let a = grades();
    assert!(np_reduce_axis_f64(&a, 2, false, lane_sum).is_none());
    assert!(np_reduce_axis_f64(&a, -1, true, lane_sum).is_none());
}

#[test]
fn reduce_over_an_empty_axis() {
    let a = np_array_from_data_f64(2, &[2, 0], vec![]).unwrap();
    let s = np_reduce_axis_f64(&a, 1, false, lane_sum).unwrap();
    assert_eq!(s.shape(), vec![2]);
    assert_eq!(floats(&s), vec![0.0, 0.0]);
}

#[test]
fn any_and_all_test_for_non_zero_elements() {
    assert!(any_nonzero(&bits(&[0.0, -0.0, 2.0])));
    assert!(any_nonzero(&bits(&[0.0, f64::NAN])));
    assert!(!any_nonzero(&bits(&[0.0, -0.0])));
    assert!(!any_nonzero(&[]));
    assert!(all_nonzero(&bits(&[1.0, -3.0, f64::INFINITY, f64::NAN])));
    assert!(!all_nonzero(&bits(&[1.0, -0.0])));
    assert!(!all_nonzero(&bits(&[1.0, 0.0])));
    assert!(all_nonzero(&[]));
    assert!(is_nonzero(f64::NAN.to_bits()));
    assert!(!is_nonzero((-0.0f64).to_bits()));
}
