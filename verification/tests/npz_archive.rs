use chuks_numpy::array::{np_array_from_data_f64, NDArrayF64};
use chuks_numpy::npy::{read_npy_from, write_npy_to};
use chuks_numpy::npz::{npz_display_names, npz_entry_name};
use std::io::{Cursor, Read, Write};

fn npy_bytes(a: &NDArrayF64) -> Vec<u8> {
    let mut out = Vec::new();
    write_npy_to(&mut out, a);
    out
}

#[test]
fn archive_round_trip() {
    let a = NDArrayF64::from_vec((0..10).map(|i| (i as f64).to_bits()).collect());
    let b = np_array_from_data_f64(2, &[2, 2], vec![0.0f64.to_bits(), 0.25f64.to_bits(), 0.5f64.to_bits(), 1.0f64.to_bits()]).unwrap();
    let mut w = zip::ZipWriter::new(Cursor::new(Vec::new()));
    for (name, arr) in [("a", &a), ("b", &b)] {
        let opts = zip::write::FileOptions::default()
            .compression_method(zip::CompressionMethod::Deflated)
            .large_file(false);
        w.start_file(npz_entry_name(name), opts).unwrap();
        w.write_all(&npy_bytes(arr)).unwrap();
    }
    let bytes = w.finish().unwrap().into_inner();
    let mut archive = zip::ZipArchive::new(Cursor::new(bytes)).unwrap();
    let entries: Vec<String> = archive.file_names().map(|s| s.to_string()).collect();
    let mut names = npz_display_names(&entries);
    names.sort();
    assert_eq!(names, vec!["a".to_string(), "b".to_string()]);
    for (name, arr) in [("a", &a), ("b", &b)] {
        let mut entry = archive.by_name(&npz_entry_name(name)).unwrap();
        let mut buf = Vec::new();
        entry.read_to_end(&mut buf).unwrap();
        let back = read_npy_from(&buf).unwrap();
        assert_eq!(back.shape(), arr.shape());
        assert_eq!(back.to_vec(), arr.to_vec());
    }
}
