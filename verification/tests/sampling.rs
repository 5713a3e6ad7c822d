use chuks_numpy::array::{np_array_from_data_f64, NDArrayF64};
use chuks_numpy::random::{
    np_random_choice_f64, np_random_shuffle_f64, pick_with, pick_without, shuffle_with,
};
use rand::rngs::StdRng;
use rand::SeedableRng;

fn arange(n: usize) -> Vec<u64> {
    (0..n).map(|i| (i as f64).to_bits()).collect()
}

#[test]
fn shuffle_is_a_permutation() {
    let mut rng = StdRng::seed_from_u64(42);
    let mut a = NDArrayF64::from_vec(arange(20));
    assert_eq!(np_random_shuffle_f64(&mut rng, &mut a), 0);
    assert_eq!(a.shape(), vec![20]);
    let mut v = a.to_vec();
    assert_ne!(v, arange(20));
    v.sort_by(|x, y| f64::from_bits(*x).partial_cmp(&f64::from_bits(*y)).unwrap());
    assert_eq!(v, arange(20));
}

#[test]
fn shuffle_is_reproducible_from_a_seed() {
    let mut a = NDArrayF64::from_vec(arange(10));
    let mut b = NDArrayF64::from_vec(arange(10));
    np_random_shuffle_f64(&mut StdRng::seed_from_u64(7), &mut a);
    np_random_shuffle_f64(&mut StdRng::seed_from_u64(7), &mut b);
    assert_eq!(a.to_vec(), b.to_vec());
}

#[test]
fn shuffle_refuses_more_than_one_axis() {
    let mut rng = StdRng::seed_from_u64(1);
    let mut m = np_array_from_data_f64(2, &[2, 2], arange(4)).unwrap();
    assert_eq!(np_random_shuffle_f64(&mut rng, &mut m), -2);
    assert_eq!(m.to_vec(), arange(4));
    let mut one = NDArrayF64::from_vec(arange(1));
    assert_eq!(np_random_shuffle_f64(&mut rng, &mut one), 0);
    assert_eq!(one.to_vec(), arange(1));
}

#[test]
fn choice_without_replacement_draws_each_position_once() {
    let mut rng = StdRng::seed_from_u64(3);
    let a = NDArrayF64::from_vec(arange(10));
    let c = np_random_choice_f64(&mut rng, &a, 10, false).unwrap();
    assert_eq!(c.shape(), vec![10]);
    let mut v = c.to_vec();
    v.sort_by(|x, y| f64::from_bits(*x).partial_cmp(&f64::from_bits(*y)).unwrap());
    assert_eq!(v, arange(10));
    let part = np_random_choice_f64(&mut rng, &a, 4, false).unwrap();
    let mut p = part.to_vec();
    p.sort();
    p.dedup();
    assert_eq!(p.len(), 4);
}

#[test]
fn choice_with_replacement_draws_from_the_array() {
    let mut rng = StdRng::seed_from_u64(5);
    let a = NDArrayF64::from_vec(vec![1.5f64.to_bits(), 2.5f64.to_bits()]);
    let c = np_random_choice_f64(&mut rng, &a, 25, true).unwrap();
    assert_eq!(c.shape(), vec![25]);
    for b in c.to_vec() {
        assert!(b == 1.5f64.to_bits() || b == 2.5f64.to_bits());
    }
    let zero = np_random_choice_f64(&mut rng, &a, 0, true).unwrap();
    assert_eq!(zero.shape(), vec![0]);
}

#[test]
fn choice_refusals() {
    let mut rng = StdRng::seed_from_u64(9);
    let a = NDArrayF64::from_vec(arange(3));
    assert!(np_random_choice_f64(&mut rng, &a, 4, false).is_none());
    assert!(np_random_choice_f64(&mut rng, &a, 4, true).is_some());
    assert!(np_random_choice_f64(&mut rng, &a, -1, true).is_none());
    let empty = NDArrayF64::from_vec(vec![]);
    assert!(np_random_choice_f64(&mut rng, &empty, 0, true).is_none());
    let m = np_array_from_data_f64(2, &[1, 3], arange(3)).unwrap();
    assert!(np_random_choice_f64(&mut rng, &m, 1, true).is_none());
}

#[test]
fn shuffle_with_given_draws() {
    let mut v = vec![10u64, 20, 30];
    shuffle_with(&mut v, &[0, 1]);
    assert_eq!(v, vec![30, 20, 10]);
    let mut w = vec![1u64, 2, 3, 4];
    shuffle_with(&mut w, &[1, 2, 0]);
    // exchange 3<->1: [1,4,3,2]; 2<->2: same; 1<->0: [4,1,3,2]
    assert_eq!(w, vec![4, 1, 3, 2]);
    let mut one = vec![5u64];
    shuffle_with(&mut one, &[]);
    assert_eq!(one, vec![5]);
}

#[test]
fn picks_with_given_draws() {
    let src = vec![10u64, 20, 30, 40];
    assert_eq!(pick_with(&src, &[2, 2, 0]), vec![30, 30, 10]);
    assert_eq!(pick_with(&src, &[]), Vec::<u64>::new());
    assert_eq!(pick_without(&src, &[3, 3]), vec![40, 10]);
    assert_eq!(pick_without(&src, &[0, 1, 2, 3]), vec![10, 20, 30, 40]);
    assert_eq!(pick_without(&src, &[1, 1, 3, 3]), vec![20, 10, 40, 30]);
}
