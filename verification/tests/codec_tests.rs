use std::io::Write;

use minskk::dict::Dict;
use minskk::error::DictError;

#[test]
fn round_trip_preserves_every_lookup() {
    let lines: Vec<String> = vec![
        "あいて /陵缄/".to_string(),
        "わたs /畔/".to_string(),
        "わたr /畔/纤/鲜/灸/".to_string(),
        "わた /畔;annotation/".to_string(),
    ];
    let dict = Dict::build(&lines).unwrap();
    let blob = dict.encode().unwrap();
    let dict2 = Dict::decode(&blob).unwrap();

    let probes: Vec<(Vec<char>, Option<char>)> = vec![
        (vec!['わ', 'た'], Some('r')),
        (vec!['わ', 'た'], Some('s')),
        (vec!['わ', 'た'], None),
        (vec!['わ', 'た'], Some('x')),
        (vec!['あ', 'い', 'て'], None),
        (vec!['あ', 'い'], None),
        (vec!['わ'], Some('r')),
        (vec![], None),
        (vec!['ん'], None),
    ];
    for (reading, marker) in probes {
        let before: Option<Vec<String>> =
            dict.look_up(&reading, &marker).map(|ks| ks.clone());
        let after: Option<Vec<String>> =
            dict2.look_up(&reading, &marker).map(|ks| ks.clone());
        assert_eq!(before, after);
    }
}

#[test]
fn round_trip_of_empty_dictionary() {
    let dict = Dict::new();
    let blob = dict.encode().unwrap();
    let dict2 = Dict::decode(&blob).unwrap();
    assert!(dict2.look_up(&vec![], &None).is_none());
    assert!(dict2.look_up(&vec!['あ'], &None).is_none());
}

#[test]
fn encoded_blob_is_compressed() {
    // the artifact is a gzip stream, not the raw word bytes
    let mut dict = Dict::new();
    dict.add_dict_file_line("あい /う/").unwrap();
    let blob = dict.encode().unwrap();
    // gzip magic bytes
    assert!(blob.len() >= 2);
    assert_eq!(blob[0], 0x1f);
    assert_eq!(blob[1], 0x8b);
}

#[test]
fn decode_rejects_garbage_bytes() {
    match Dict::decode(&vec![1, 2, 3, 4, 5]) {
        Err(DictError::DecodeFailure) => {},
        _ => assert!(false),
    }
}

#[test]
fn decode_rejects_gzip_of_junk() {
    // a well-formed gzip stream whose payload is not a word stream
    let mut enc = flate2::write::GzEncoder::new(Vec::new(), flate2::Compression::default());
    enc.write_all(&[0xff, 0x01, 0x02]).unwrap();
    let blob = enc.finish().unwrap();
    match Dict::decode(&blob) {
        Err(DictError::DecodeFailure) => {},
        _ => assert!(false),
    }
}

fn gzip_words(words: &[u64]) -> Vec<u8> {
    let mut bytes: Vec<u8> = Vec::new();
    for w in words {
        bytes.extend_from_slice(&w.to_le_bytes());
    }
    let mut enc = flate2::write::GzEncoder::new(Vec::new(), flate2::Compression::default());
    enc.write_all(&bytes).unwrap();
    enc.finish().unwrap()
}

#[test]
fn decode_accepts_minimal_artifact() {
    // an empty node: no candidate-map entries, no children
    let blob = gzip_words(&[0, 0]);
    let dict = Dict::decode(&blob).unwrap();
    assert!(dict.look_up(&vec![], &None).is_none());
    assert!(dict.look_up(&vec!['あ'], &None).is_none());
}

#[test]
fn decode_rejects_trailing_words() {
    // a complete empty node followed by one more word
    let blob = gzip_words(&[0, 0, 0]);
    match Dict::decode(&blob) {
        Err(DictError::DecodeFailure) => {},
        _ => assert!(false),
    }
}

#[test]
fn decode_rejects_malformed_marker() {
    // one candidate-map entry whose absent-marker pad word is not zero
    let blob = gzip_words(&[1, 0, 5, 0, 0]);
    match Dict::decode(&blob) {
        Err(DictError::DecodeFailure) => {},
        _ => assert!(false),
    }
}

#[test]
fn decode_rejects_truncated_artifact() {
    let mut dict = Dict::new();
    dict.add_dict_file_line("あい /う/").unwrap();
    let blob = dict.encode().unwrap();
    let truncated: Vec<u8> = blob[..blob.len() - 1].to_vec();
    assert!(Dict::decode(&truncated).is_err());
}
