use chuks_numpy::array::{np_array_from_data_f64, NDArrayF64};
use chuks_numpy::linalg::{
    assemble_batched, batched_operands, diagonal, dmatrix_to_nd, dvector_to_nd, matmul_plan, matrix_parts, np_eig_vals_im_f64,
    np_eig_vals_re_f64, np_qr_q_f64, np_qr_r_f64, np_svd_s_f64, np_svd_u_f64, np_svd_vt_f64,
    paired_vectors, rhs_parts, square_matrix_parts, vector_parts, EigHandle, MatmulPlan,
    QrHandle, Rhs, SvdHandle,
};

fn bits(xs: &[f64]) -> Vec<u64> {
    xs.iter().map(|x| x.to_bits()).collect()
}

fn floats(a: &NDArrayF64) -> Vec<f64> {
    a.to_vec().iter().map(|b| f64::from_bits(*b)).collect()
}

fn zeros(shape: &[i64]) -> NDArrayF64 {
    let n: i64 = shape.iter().product();
    np_array_from_data_f64(shape.len() as i64, shape, vec![0; n as usize]).unwrap()
}

#[test]
fn matmul_plans_by_number_of_axes() {
    assert_eq!(matmul_plan(&zeros(&[2, 3]), &zeros(&[3, 4])), Some(MatmulPlan::MatMat { m: 2, k: 3, n: 4 }));
    assert_eq!(matmul_plan(&zeros(&[2, 3]), &zeros(&[3])), Some(MatmulPlan::MatVec { m: 2, k: 3 }));
    assert_eq!(matmul_plan(&zeros(&[3]), &zeros(&[3, 5])), Some(MatmulPlan::VecMat { k: 3, n: 5 }));
    assert_eq!(matmul_plan(&zeros(&[4]), &zeros(&[4])), Some(MatmulPlan::VecVec { k: 4 }));
}

#[test]
fn matmul_refuses_mismatched_inner_lengths() {
    assert_eq!(matmul_plan(&zeros(&[2, 3]), &zeros(&[2, 3])), None);
    assert_eq!(matmul_plan(&zeros(&[2, 3]), &zeros(&[2])), None);
    assert_eq!(matmul_plan(&zeros(&[3]), &zeros(&[4])), None);
    assert_eq!(matmul_plan(&zeros(&[2, 2, 2]), &zeros(&[2])), None);
    assert_eq!(matmul_plan(&zeros(&[2, 2, 3]), &zeros(&[2, 2, 3])), None);
    assert_eq!(matmul_plan(&zeros(&[2, 2, 2]), &zeros(&[3, 2, 2])), None);
    assert_eq!(matmul_plan(&zeros(&[]), &zeros(&[2])), None);
}

#[test]
fn matrix_parts_of_a_matrix() {
    let a = np_array_from_data_f64(2, &[2, 2], bits(&[3.0, 1.0, 1.0, 2.0])).unwrap();
    let (r, c, d) = matrix_parts(&a).unwrap();
    assert_eq!((r, c), (2, 2));
    assert_eq!(d, bits(&[3.0, 1.0, 1.0, 2.0]));
    assert!(matrix_parts(&zeros(&[4])).is_none());
    assert!(square_matrix_parts(&a).is_some());
    assert!(square_matrix_parts(&zeros(&[2, 3])).is_none());
}

#[test]
fn vector_parts_and_pairs() {
    let b = NDArrayF64::from_vec(bits(&[9.0, 8.0]));
    assert_eq!(vector_parts(&b), Some(bits(&[9.0, 8.0])));
    assert!(vector_parts(&zeros(&[1, 2])).is_none());
    let c = NDArrayF64::from_vec(bits(&[1.0, 2.0]));
    assert_eq!(paired_vectors(&b, &c), Some((bits(&[9.0, 8.0]), bits(&[1.0, 2.0]))));
    assert!(paired_vectors(&b, &zeros(&[3])).is_none());
    assert!(paired_vectors(&b, &zeros(&[2, 1])).is_none());
}

#[test]
fn column_major_storage_becomes_row_major() {
    let m = dmatrix_to_nd(2, 3, &bits(&[1.0, 4.0, 2.0, 5.0, 3.0, 6.0]));
    assert_eq!(m.shape(), vec![2, 3]);
    assert_eq!(floats(&m), vec![1.0, 2.0, 3.0, 4.0, 5.0, 6.0]);
    let v = dvector_to_nd(bits(&[2.0, 3.0]));
    assert_eq!(v.shape(), vec![2]);
}

#[test]
fn right_hand_sides() {
    let v = NDArrayF64::from_vec(bits(&[9.0, 8.0]));
    match rhs_parts(2, &v) {
        Some(Rhs::Vector(x)) => assert_eq!(x, bits(&[9.0, 8.0])),
        _ => panic!("expected a vector"),
    }
    let m = zeros(&[2, 3]);
    match rhs_parts(2, &m) {
        Some(Rhs::Matrix(cols, x)) => {
            assert_eq!(cols, 3);
            assert_eq!(x.len(), 6);
        }
        _ => panic!("expected a matrix"),
    }
    assert!(rhs_parts(3, &v).is_none());
    assert!(rhs_parts(2, &zeros(&[2, 1, 1])).is_none());
}

#[test]
fn diagonal_of_a_rectangle() {
    let a = np_array_from_data_f64(2, &[2, 3], bits(&[1.0, 2.0, 3.0, 4.0, 5.0, 6.0])).unwrap();
    let d: Vec<f64> = diagonal(&a).unwrap().iter().map(|b| f64::from_bits(*b)).collect();
    assert_eq!(d, vec![1.0, 5.0]);
    assert!(diagonal(&zeros(&[3])).is_none());
}

#[test]
fn decomposition_handles_give_copies() {
    let q = np_array_from_data_f64(2, &[1, 1], bits(&[1.0])).unwrap();
    let r = np_array_from_data_f64(2, &[1, 1], bits(&[2.0])).unwrap();
    let h = QrHandle::new(q, r);
    assert_eq!(floats(&np_qr_q_f64(&h)), vec![1.0]);
    assert_eq!(floats(&np_qr_r_f64(&h)), vec![2.0]);
    let s = SvdHandle::new(zeros(&[2, 2]), NDArrayF64::from_vec(bits(&[3.0, 1.0])), zeros(&[2, 2]));
    assert_eq!(np_svd_u_f64(&s).shape(), vec![2, 2]);
    assert_eq!(floats(&np_svd_s_f64(&s)), vec![3.0, 1.0]);
    assert_eq!(np_svd_vt_f64(&s).shape(), vec![2, 2]);
    let e = EigHandle::new(bits(&[1.0, 1.0]), bits(&[2.0, -2.0]));
    assert_eq!(floats(&np_eig_vals_re_f64(&e)), vec![1.0, 1.0]);
    assert_eq!(floats(&np_eig_vals_im_f64(&e)), vec![2.0, -2.0]);
}

fn matmul_rows(m: usize, k: usize, n: usize, x: &[u64], y: &[u64]) -> Vec<u64> {
    let mut out = Vec::new();
    for i in 0..m {
        for j in 0..n {
            let mut s = 0.0;
            for t in 0..k {
                s += f64::from_bits(x[i * k + t]) * f64::from_bits(y[t * n + j]);
            }
            out.push(s.to_bits());
        }
    }
    out
}

#[test]
fn batched_matmul_over_leading_axes() {
    let a = np_array_from_data_f64(3, &[2, 2, 2], bits(&[1.0, 0.0, 0.0, 1.0, 2.0, 0.0, 0.0, 2.0])).unwrap();
    let b = np_array_from_data_f64(3, &[2, 2, 2], bits(&[1.0, 2.0, 3.0, 4.0, 1.0, 2.0, 3.0, 4.0])).unwrap();
    assert_eq!(matmul_plan(&a, &b), Some(MatmulPlan::Batched { m: 2, k: 2, n: 2 }));
    let ops = batched_operands(&a, &b).unwrap();
    assert_eq!(ops.batch, vec![2]);
    assert_eq!(ops.a_mats, vec![bits(&[1.0, 0.0, 0.0, 1.0]), bits(&[2.0, 0.0, 0.0, 2.0])]);
    assert_eq!(ops.b_mats, vec![bits(&[1.0, 2.0, 3.0, 4.0]), bits(&[1.0, 2.0, 3.0, 4.0])]);
    let prods: Vec<Vec<u64>> = ops
        .a_mats
        .iter()
        .zip(ops.b_mats.iter())
        .map(|(x, y)| matmul_rows(ops.m, ops.k, ops.n, x, y))
        .collect();
    let c = assemble_batched(&ops.batch, ops.m, ops.n, &prods);
    assert_eq!(c.shape(), vec![2, 2, 2]);
    assert_eq!(floats(&c), vec![1.0, 2.0, 3.0, 4.0, 2.0, 4.0, 6.0, 8.0]);
}

#[test]
fn batched_matmul_broadcasts_the_batch() {
    let a = np_array_from_data_f64(3, &[3, 1, 2], bits(&[1.0, 2.0, 3.0, 4.0, 5.0, 6.0])).unwrap();
    let b = np_array_from_data_f64(2, &[2, 1], bits(&[10.0, 1.0])).unwrap();
    assert_eq!(matmul_plan(&a, &b), Some(MatmulPlan::Batched { m: 1, k: 2, n: 1 }));
    let ops = batched_operands(&a, &b).unwrap();
    assert_eq!(ops.batch, vec![3]);
    assert_eq!(ops.b_mats.len(), 3);
    let prods: Vec<Vec<u64>> = ops
        .a_mats
        .iter()
        .zip(ops.b_mats.iter())
        .map(|(x, y)| matmul_rows(ops.m, ops.k, ops.n, x, y))
        .collect();
    let c = assemble_batched(&ops.batch, ops.m, ops.n, &prods);
    assert_eq!(c.shape(), vec![3, 1, 1]);
    assert_eq!(floats(&c), vec![12.0, 34.0, 56.0]);
    let x = np_array_from_data_f64(3, &[2, 1, 2], bits(&[0.0; 4])).unwrap();
    let y = np_array_from_data_f64(3, &[3, 2, 1], bits(&[0.0; 6])).unwrap();
    assert!(batched_operands(&x, &y).is_none());
    let empty = np_array_from_data_f64(3, &[0, 2, 2], vec![]).unwrap();
    let one = np_array_from_data_f64(3, &[1, 2, 2], bits(&[0.0; 4])).unwrap();
    assert_eq!(matmul_plan(&empty, &one), Some(MatmulPlan::Batched { m: 2, k: 2, n: 2 }));
    let e = batched_operands(&empty, &one).unwrap();
    assert_eq!(e.batch, vec![0]);
    assert!(e.a_mats.is_empty());
    let c = assemble_batched(&e.batch, e.m, e.n, &vec![]);
    assert_eq!(c.shape(), vec![0, 2, 2]);
    assert!(batched_operands(&zeros(&[2, 3]), &zeros(&[3, 4])).is_none());
}
