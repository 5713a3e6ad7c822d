use chuks_numpy::array::{np_array_from_data_f64, NDArrayF64};
use chuks_numpy::npy::{
    build_npy_header, parse_npy_header, read_npy_from, read_npy_parts, write_npy_parts,
    write_npy_to, NpyError,
};

fn bits(xs: &[f64]) -> Vec<u64> {
    xs.iter().map(|x| x.to_bits()).collect()
}

fn header_text(shape: &str) -> String {
    let h = format!("{{'descr': '<f8', 'fortran_order': False, 'shape': {}, }}", shape);
    let pad = (16 - ((10 + h.len() + 1) % 16)) % 16;
    format!("{}{}\n", h, " ".repeat(pad))
}

fn stream_with_header(major: u8, header: &str, data: &[f64]) -> Vec<u8> {
    let mut b = vec![0x93u8, b'N', b'U', b'M', b'P', b'Y', major, 0];
    if major >= 2 {
        b.extend_from_slice(&(header.len() as u32).to_le_bytes());
    } else {
        b.extend_from_slice(&(header.len() as u16).to_le_bytes());
    }
    b.extend_from_slice(header.as_bytes());
    for x in data {
        b.extend_from_slice(&x.to_le_bytes());
    }
    b
}

#[test]
fn header_of_a_matrix() {
    let h = build_npy_header(&[2, 3]);
    assert_eq!(
        String::from_utf8(h.clone()).unwrap(),
        "{'descr': '<f8', 'fortran_order': False, 'shape': (2, 3), }          \n"
    );
    assert_eq!((10 + h.len()) % 16, 0);
}

#[test]
fn header_of_a_vector_and_a_scalar() {
    assert_eq!(String::from_utf8(build_npy_header(&[5])).unwrap(), header_text("(5,)"));
    assert_eq!(String::from_utf8(build_npy_header(&[])).unwrap(), header_text("()"));
    let big = build_npy_header(&[123456789, 0, 1]);
    assert_eq!(String::from_utf8(big.clone()).unwrap(), header_text("(123456789, 0, 1)"));
    assert_eq!((10 + big.len()) % 16, 0);
    assert_eq!(*big.last().unwrap(), b'\n');
}

#[test]
fn parse_reads_back_what_build_writes() {
    for shape in [vec![], vec![7], vec![2, 3], vec![4, 0, 9, 1]] {
        let h = String::from_utf8(build_npy_header(&shape)).unwrap();
        assert_eq!(parse_npy_header(&h), Ok((shape.clone(), false)));
    }
}

#[test]
fn parse_accepts_numpy_spellings() {
    let h = "{'descr': '|f8', 'fortran_order': True, 'shape': ( 3 , 4 ), }";
    assert_eq!(parse_npy_header(h), Ok((vec![3, 4], true)));
    let n = "{'shape': (6,), 'fortran_order':   False, 'descr': '=f8'}";
    assert_eq!(parse_npy_header(n), Ok((vec![6], false)));
}

#[test]
fn parse_refuses_other_types_and_malformed_headers() {
    assert_eq!(parse_npy_header("{'descr': '<f4', 'fortran_order': False, 'shape': (2,), }"), Err(()));
    assert_eq!(parse_npy_header("{'descr': '>f8', 'fortran_order': False, 'shape': (2,), }"), Err(()));
    assert_eq!(parse_npy_header("{'fortran_order': False, 'shape': (2,), }"), Err(()));
    assert_eq!(parse_npy_header("{'descr': '<f8', 'shape': (2,), }"), Err(()));
    assert_eq!(parse_npy_header("{'descr': '<f8', 'fortran_order': False, }"), Err(()));
    assert_eq!(parse_npy_header("{'descr': '<f8', 'fortran_order': False, 'shape': (2, x), }"), Err(()));
    assert_eq!(parse_npy_header("{'descr': '<f8', 'fortran_order': False, 'shape': (-2,), }"), Err(()));
    assert_eq!(parse_npy_header("{'descr': '<f8', 'fortran_order': False, 'shape': (2, }"), Err(()));
}

#[test]
fn array_round_trip() {
    let a = np_array_from_data_f64(2, &[2, 3], bits(&[0.5, -1.0, 2.0, f64::INFINITY, 4.25, 1e-300])).unwrap();
    let mut out = Vec::new();
    write_npy_to(&mut out, &a);
    assert_eq!(&out[0..8], &[0x93, b'N', b'U', b'M', b'P', b'Y', 1, 0]);
    assert_eq!(out.len(), 10 + 70 + 6 * 8);
    let b = read_npy_from(&out).unwrap();
    assert_eq!(b.shape(), vec![2, 3]);
    assert_eq!(b.to_vec(), a.to_vec());
}

#[test]
fn round_trip_of_a_scalar_and_an_empty_array() {
    let s = np_array_from_data_f64(0, &[], bits(&[3.0])).unwrap();
    let mut out = Vec::new();
    write_npy_to(&mut out, &s);
    let back = read_npy_from(&out).unwrap();
    assert_eq!(back.shape(), Vec::<usize>::new());
    assert_eq!(back.to_vec(), bits(&[3.0]));
    let e = NDArrayF64::from_vec(vec![]);
    let mut out2 = Vec::new();
    write_npy_to(&mut out2, &e);
    assert_eq!(read_npy_from(&out2).unwrap().shape(), vec![0]);
}

#[test]
fn parts_round_trip_and_trailing_bytes() {
    let mut out = vec![1u8, 2, 3];
    write_npy_parts(&mut out, &[2], &bits(&[1.0, 2.0]));
    assert_eq!(&out[0..3], &[1, 2, 3]);
    let mut stream = out[3..].to_vec();
    stream.extend_from_slice(&[9, 9, 9]);
    assert_eq!(read_npy_parts(&stream), Ok((vec![2], bits(&[1.0, 2.0]))));
}

#[test]
fn version_two_streams_have_a_wide_header_length() {
    let h = "{'descr': '<f8', 'fortran_order': False, 'shape': (3,), }\n";
    let b = stream_with_header(2, h, &[1.0, 2.0, 3.0]);
    let a = read_npy_from(&b).unwrap();
    assert_eq!(a.shape(), vec![3]);
    assert_eq!(a.to_vec(), bits(&[1.0, 2.0, 3.0]));
}

#[test]
fn read_errors() {
    assert_eq!(read_npy_parts(&[0x93, b'N', b'U']), Err(NpyError::Truncated));
    let h = header_text("(2,)");
    let mut bad = stream_with_header(1, &h, &[1.0, 2.0]);
    bad[1] = b'X';
    assert_eq!(read_npy_parts(&bad), Err(NpyError::BadMagic));
    let short = stream_with_header(1, &h, &[1.0]);
    assert_eq!(read_npy_parts(&short), Err(NpyError::Truncated));
    let cut = stream_with_header(1, &h, &[])[..20].to_vec();
    assert_eq!(read_npy_parts(&cut), Err(NpyError::Truncated));
    let wide_cut = vec![0x93u8, b'N', b'U', b'M', b'P', b'Y', 3, 0, 5, 0];
    assert_eq!(read_npy_parts(&wide_cut), Err(NpyError::Truncated));
    let mut not_utf8 = stream_with_header(1, &h, &[1.0, 2.0]);
    not_utf8[12] = 0xff;
    assert_eq!(read_npy_parts(&not_utf8), Err(NpyError::HeaderNotUtf8));
    let wrong_type = stream_with_header(1, "{'descr': '<i8', 'fortran_order': False, 'shape': (2,), }\n", &[1.0, 2.0]);
    assert_eq!(read_npy_parts(&wrong_type), Err(NpyError::HeaderParse));
    let fortran = stream_with_header(1, "{'descr': '<f8', 'fortran_order': True, 'shape': (2,), }\n", &[1.0, 2.0]);
    assert_eq!(read_npy_parts(&fortran), Err(NpyError::FortranOrder));
    let huge = stream_with_header(
        1,
        "{'descr': '<f8', 'fortran_order': False, 'shape': (18446744073709551615, 2), }\n",
        &[],
    );
    assert_eq!(read_npy_parts(&huge), Err(NpyError::ShapeMismatch));
    assert!(matches!(read_npy_from(&huge), Err(NpyError::ShapeMismatch)));
}
