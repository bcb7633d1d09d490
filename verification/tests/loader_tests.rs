use minskk::loader::{drop_gz_suffix_if_exists, get_dict_file_to_load, get_path_gz,
    get_path_ser_gz, DictFile};

#[test]
fn gz_suffix_is_dropped_once() {
    assert_eq!(drop_gz_suffix_if_exists("SKK-JISYO.L.gz".to_string()), "SKK-JISYO.L");
    assert_eq!(drop_gz_suffix_if_exists("SKK-JISYO.L".to_string()), "SKK-JISYO.L");
    assert_eq!(drop_gz_suffix_if_exists("a.gz.gz".to_string()), "a.gz");
    assert_eq!(drop_gz_suffix_if_exists(".gz".to_string()), "");
}

#[test]
fn sibling_paths_are_joined() {
    let dir = Some("/home/user/.skk".to_string());
    let name = "SKK-JISYO.L".to_string();
    assert_eq!(get_path_ser_gz(&dir, &name), "/home/user/.skk/SKK-JISYO.L.ser.gz");
    assert_eq!(get_path_gz(&dir, &name), "/home/user/.skk/SKK-JISYO.L.gz");
    assert_eq!(get_path_ser_gz(&None, &name), "SKK-JISYO.L.ser.gz");
    assert_eq!(get_path_gz(&None, &name), "SKK-JISYO.L.gz");
}

#[test]
fn loader_prefers_serialized_cache() {
    // with every candidate present, the cache artifact is selected
    let base = "/d/SKK-JISYO.L".to_string();
    match get_dict_file_to_load(&base, true, true, true) {
        DictFile::SerGz(p) => assert_eq!(p, "/d/SKK-JISYO.L.ser.gz"),
        _ => assert!(false),
    }
}

#[test]
fn loader_falls_back_to_compressed_source() {
    let base = "/d/SKK-JISYO.L".to_string();
    match get_dict_file_to_load(&base, false, true, true) {
        DictFile::Gz(p, q) => {
            assert_eq!(p, "/d/SKK-JISYO.L.gz");
            assert_eq!(q, "/d/SKK-JISYO.L.ser.gz");
        },
        _ => assert!(false),
    }
}

#[test]
fn loader_falls_back_to_raw_source() {
    let base = "/d/SKK-JISYO.L".to_string();
    match get_dict_file_to_load(&base, false, false, true) {
        DictFile::Raw(p, q) => {
            assert_eq!(p, "/d/SKK-JISYO.L");
            assert_eq!(q, "/d/SKK-JISYO.L.ser.gz");
        },
        _ => assert!(false),
    }
}

#[test]
fn loader_reports_nothing_to_load() {
    let base = "/d/SKK-JISYO.L".to_string();
    match get_dict_file_to_load(&base, false, false, false) {
        DictFile::NotFound => {},
        _ => assert!(false),
    }
    // an empty file-name part never resolves
    match get_dict_file_to_load(&"/d/".to_string(), true, true, true) {
        DictFile::NotFound => {},
        _ => assert!(false),
    }
}

#[test]
fn loader_handles_bare_file_name() {
    // a base path without a directory part
    match get_dict_file_to_load(&"SKK-JISYO.L".to_string(), true, true, true) {
        DictFile::SerGz(p) => assert_eq!(p, "SKK-JISYO.L.ser.gz"),
        _ => assert!(false),
    }
}

#[test]
fn loader_derives_siblings_from_gz_stem() {
    // a base path already ending in .gz shares its stem with the siblings
    let base = "/d/SKK-JISYO.L.gz".to_string();
    match get_dict_file_to_load(&base, true, true, true) {
        DictFile::SerGz(p) => assert_eq!(p, "/d/SKK-JISYO.L.ser.gz"),
        _ => assert!(false),
    }
    match get_dict_file_to_load(&base, false, true, false) {
        DictFile::Gz(p, q) => {
            assert_eq!(p, "/d/SKK-JISYO.L.gz");
            assert_eq!(q, "/d/SKK-JISYO.L.ser.gz");
        },
        _ => assert!(false),
    }
}
