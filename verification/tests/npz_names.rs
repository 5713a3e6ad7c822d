use chuks_numpy::npz::{npz_display_name, npz_display_names, npz_entry_name, npz_name_at};

#[test]
fn entries_are_stored_with_the_npy_suffix() {
    assert_eq!(npz_entry_name("a"), "a.npy");
    assert_eq!(npz_entry_name(""), ".npy");
    assert_eq!(npz_entry_name("weights.v2"), "weights.v2.npy");
}

#[test]
fn display_names_drop_one_npy_suffix() {
    assert_eq!(npz_display_name("a.npy"), "a");
    assert_eq!(npz_display_name("a.npy.npy"), "a.npy");
    assert_eq!(npz_display_name("readme.txt"), "readme.txt");
    assert_eq!(npz_display_name("npy"), "npy");
    assert_eq!(npz_display_name(".npy"), "");
    assert_eq!(npz_display_name("é.npy"), "é");
}

#[test]
fn stored_names_show_back_as_given() {
    for name in ["a", "b", "", "x.npy", "ünïcode"] {
        let entry = npz_entry_name(name);
        assert_eq!(npz_display_name(&entry), name);
    }
}

#[test]
fn names_in_archive_order() {
    let entries = vec!["a.npy".to_string(), "b.npy".to_string(), "notes".to_string()];
    let names = npz_display_names(&entries);
    assert_eq!(names, vec!["a".to_string(), "b".to_string(), "notes".to_string()]);
    assert_eq!(npz_name_at(&names, 1), Some("b".to_string()));
    assert_eq!(npz_name_at(&names, 3), None);
    assert_eq!(npz_name_at(&names, -1), None);
}
