use minskk::dict::Dict;
use minskk::error::DictError;

#[test]
fn test_test() {}

#[test]
fn test_parse_line() {
    let line = "わるs /碍/";
    let dict = Dict::new();

    let maybe_res = dict.parse_line(line);
    match maybe_res {
        None => assert!(false),
        Some(res) => {
            assert_eq!(res.readings.len(), 3);
            assert_eq!(res.readings[0], 'わ');
            assert_eq!(res.readings[1], 'る');
            assert_eq!(res.readings[2], 's');

            assert_eq!(res.kanjis.len(), 1);
            assert_eq!(res.kanjis[0], "碍");
        },
    }

    let line = "Cyrillic /А/Б/В/Г/Д/Е/Ё/Ж/З/И/Й/К/Л/М/Н/О/П/Р/С/Т/У/Ф/Х/Ц/Ч/Ш/Щ/Ъ/Ы/Ь/Э/Ю/Я/";
    let dict = Dict::new();
    let maybe_res = dict.parse_line(line);
    match maybe_res {
        None => assert!(false),
        Some(res) => {
            let act: Vec<String> = res.readings.iter().map(|&c| c.to_string()).collect();
            let exp: Vec<String> = "Cyrillic".chars().map(|c| c.to_string()).collect();
            assert_eq!(act, exp);

            let act: Vec<String> = res.kanjis;
            let exp: Vec<String> = "А/Б/В/Г/Д/Е/Ё/Ж/З/И/Й/К/Л/М/Н/О/П/Р/С/Т/У/Ф/Х/Ц/Ч/Ш/Щ/Ъ/Ы/Ь/Э/Ю/Я"
                .split('/')
                .map(|c| c.to_string())
                .collect();
            assert_eq!(act, exp);
        },
    }
}

#[test]
fn test_looking_up_word_single_some_acc_kana_entry() {
    let line = "わるs /碍/";
    let mut dict = Dict::new();
    dict.add_dict_file_line(line).unwrap();

    let readings = vec!['わ', 'る'];
    match dict.look_up(&readings, &Some('s')) {
        Some(kanjis) => {
            assert_eq!(kanjis.len(), 1);
            assert_eq!(kanjis[0], "碍");
        },
        None => {
            assert!(false);
        },
    }
    if dict.look_up(&readings, &Some('l')).is_some() {
        assert!(false);
    }
    if dict.look_up(&readings, &None).is_some() {
        assert!(false);
    }
    let readings = vec![];
    if dict.look_up(&readings, &None).is_some() {
        assert!(false);
    }
    let readings = vec!['わ'];
    if dict.look_up(&readings, &None).is_some() {
        assert!(false);
    }
    let readings = vec!['わ', 'る', 'え'];
    if dict.look_up(&readings, &None).is_some() {
        assert!(false);
    }
}

#[test]
fn test_looking_up_word_single_noe_acc_kana_entry() {
    let line = "あいて /陵缄/";
    let mut dict = Dict::new();
    dict.add_dict_file_line(line).unwrap();

    let readings = vec!['あ', 'い', 'て'];
    match dict.look_up(&readings, &None) {
        Some(kanjis) => {
            assert_eq!(kanjis.len(), 1);
            assert_eq!(kanjis[0], "陵缄");
        },
        None => {
            assert!(false);
        },
    }
    if dict.look_up(&readings, &Some('l')).is_some() {
        assert!(false);
    }
    let readings = vec![];
    if dict.look_up(&readings, &None).is_some() {
        assert!(false);
    }
    let readings = vec!['わ'];
    if dict.look_up(&readings, &None).is_some() {
        assert!(false);
    }
    let readings = vec!['わ', 'る', 'え'];
    if dict.look_up(&readings, &None).is_some() {
        assert!(false);
    }
}

#[test]
fn test_looking_up_word_multiple_entries() {
    let lines = vec![
        "あいて /陵缄/",
        "わたs /畔/",
        "わたr /畔/纤/鲜/灸/",
        "わずらw /妊/",
        "わずらu /吹/妊/",
        "わすr /撕/",
        "わざわi /阂/",
        "よわs /煎/",
        "よわr /煎/",
    ];
    let mut dict = Dict::new();
    for line in lines {
        dict.add_dict_file_line(line).unwrap();
    }

    // should be able to look up all words
    let readings = vec!['あ', 'い', 'て'];
    match dict.look_up(&readings, &None) {
        Some(kanjis) => {
            assert_eq!(kanjis.len(), 1);
            assert_eq!(kanjis[0], "陵缄");
        },
        None => {
            assert!(false);
        },
    }
    let readings = vec!['わ', 'た'];
    match dict.look_up(&readings, &Some('s')) {
        Some(kanjis) => {
            assert_eq!(kanjis.len(), 1);
            assert_eq!(kanjis[0], "畔");
        },
        None => {
            assert!(false);
        },
    }
    let readings = vec!['わ', 'た'];
    match dict.look_up(&readings, &Some('r')) {
        Some(kanjis) => {
            assert_eq!(kanjis.len(), 4);
            assert_eq!(kanjis[0], "畔");
            assert_eq!(kanjis[1], "纤");
            assert_eq!(kanjis[2], "鲜");
            assert_eq!(kanjis[3], "灸");
        },
        None => {
            assert!(false);
        },
    }
    let readings = vec!['わ', 'ず', 'ら'];
    match dict.look_up(&readings, &Some('w')) {
        Some(kanjis) => {
            assert_eq!(kanjis.len(), 1);
            assert_eq!(kanjis[0], "妊");
        },
        None => {
            assert!(false);
        },
    }
    let readings = vec!['わ', 'ず', 'ら'];
    match dict.look_up(&readings, &Some('u')) {
        Some(kanjis) => {
            assert_eq!(kanjis.len(), 2);
            assert_eq!(kanjis[0], "吹");
            assert_eq!(kanjis[1], "妊");
        },
        None => {
            assert!(false);
        },
    }
    let readings = vec!['わ', 'す'];
    match dict.look_up(&readings, &Some('r')) {
        Some(kanjis) => {
            assert_eq!(kanjis.len(), 1);
            assert_eq!(kanjis[0], "撕");
        },
        None => {
            assert!(false);
        },
    }
    let readings = vec!['わ', 'ざ', 'わ'];
    match dict.look_up(&readings, &Some('i')) {
        Some(kanjis) => {
            assert_eq!(kanjis.len(), 1);
            assert_eq!(kanjis[0], "阂");
        },
        None => {
            assert!(false);
        },
    }
    let readings = vec!['よ', 'わ'];
    match dict.look_up(&readings, &Some('s')) {
        Some(kanjis) => {
            assert_eq!(kanjis.len(), 1);
            assert_eq!(kanjis[0], "煎");
        },
        None => {
            assert!(false);
        },
    }
    let readings = vec!['よ', 'わ'];
    match dict.look_up(&readings, &Some('r')) {
        Some(kanjis) => {
            assert_eq!(kanjis.len(), 1);
            assert_eq!(kanjis[0], "煎");
        },
        None => {
            assert!(false);
        },
    }

    // should not able to look up words not in the tree
    let readings = vec!['あ', 'い', 'て'];
    if dict.look_up(&readings, &Some('a')).is_some() {
        assert!(false);
    }

    let readings = vec!['わ', 'た'];
    if dict.look_up(&readings, &Some('a')).is_some() {
        assert!(false);
    }
    if dict.look_up(&readings, &None).is_some() {
        assert!(false);
    }
    let readings = vec!['わ', 'ず', 'ら'];
    if dict.look_up(&readings, &None).is_some() {
        assert!(false);
    }
    if dict.look_up(&readings, &Some('i')).is_some() {
        assert!(false);
    }
    let readings = vec!['わ', 'す'];
    if dict.look_up(&readings, &None).is_some() {
        assert!(false);
    }
    if dict.look_up(&readings, &Some('i')).is_some() {
        assert!(false);
    }
    let readings = vec!['わ', 'ざ', 'わ'];
    if dict.look_up(&readings, &None).is_some() {
        assert!(false);
    }
    if dict.look_up(&readings, &Some('w')).is_some() {
        assert!(false);
    }
    let readings = vec!['よ', 'わ'];
    if dict.look_up(&readings, &None).is_some() {
        assert!(false);
    }
    if dict.look_up(&readings, &Some('w')).is_some() {
        assert!(false);
    }
}

#[test]
fn empty_reading_is_not_found() {
    let lines: Vec<String> = vec!["あい /う/".to_string(), "わたs /え/".to_string()];
    let dict = Dict::build(&lines).unwrap();
    assert!(dict.look_up(&vec![], &None).is_none());
    assert!(dict.look_up(&vec![], &Some('s')).is_none());
    assert!(dict.look_up(&vec![], &Some('a')).is_none());
}

#[test]
fn single_letter_reading_stores_empty_path() {
    // a reading that is one inflection letter stores its candidates under
    // the empty path: the one exception to the empty-reading rule
    let mut dict = Dict::new();
    dict.add_dict_file_line("s /畔/").unwrap();
    match dict.look_up(&vec![], &Some('s')) {
        Some(kanjis) => assert_eq!(kanjis[0], "畔"),
        None => assert!(false),
    }
    assert!(dict.look_up(&vec![], &None).is_none());
}

#[test]
fn strict_prefix_is_not_found() {
    let mut dict = Dict::new();
    dict.add_dict_file_line("わた /畔/").unwrap();
    assert!(dict.look_up(&vec!['わ'], &None).is_none());
    assert!(dict.look_up(&vec!['わ'], &Some('t')).is_none());
    assert!(dict.look_up(&vec!['わ', 'た', 'り'], &None).is_none());
    assert!(dict.look_up(&vec!['わ', 'た'], &None).is_some());
}

#[test]
fn repeated_inserts_accumulate_in_order() {
    let mut dict = Dict::new();
    dict.add_dict_file_line("わたr /畔/").unwrap();
    dict.add_dict_file_line("わたr /纤/").unwrap();
    match dict.look_up(&vec!['わ', 'た'], &Some('r')) {
        Some(kanjis) => {
            assert_eq!(kanjis.len(), 2);
            assert_eq!(kanjis[0], "畔");
            assert_eq!(kanjis[1], "纤");
        },
        None => assert!(false),
    }
}

#[test]
fn comment_lines_are_skipped_without_error() {
    let mut dict = Dict::new();
    assert!(dict.parse_line(";; okuri-ari entries.").is_none());
    assert!(dict.add_dict_file_line(";; okuri-ari entries.").is_ok());
    assert!(dict.look_up(&vec![], &None).is_none());

    let lines: Vec<String> = vec![
        ";; comment".to_string(),
        "あい /う/".to_string(),
        ";;another /comment/".to_string(),
    ];
    let dict = Dict::build(&lines).unwrap();
    match dict.look_up(&vec!['あ', 'い'], &None) {
        Some(kanjis) => assert_eq!(kanjis[0], "う"),
        None => assert!(false),
    }
}

#[test]
fn line_without_space_is_skipped() {
    let mut dict = Dict::new();
    assert!(dict.parse_line("わた").is_none());
    assert!(dict.add_dict_file_line("わた").is_ok());
    assert!(dict.look_up(&vec!['わ', 'た'], &None).is_none());
}

#[test]
fn annotation_is_stripped_from_candidates() {
    let dict = Dict::new();
    let res = dict.parse_line("わた /畔;annotation/纤/").unwrap();
    assert_eq!(res.kanjis, vec!["畔".to_string(), "纤".to_string()]);

    let mut dict = Dict::new();
    dict.add_dict_file_line("わた /畔;annotation/纤/").unwrap();
    match dict.look_up(&vec!['わ', 'た'], &None) {
        Some(kanjis) => {
            assert_eq!(kanjis.len(), 2);
            assert_eq!(kanjis[0], "畔");
            assert_eq!(kanjis[1], "纤");
        },
        None => assert!(false),
    }
}

#[test]
fn empty_candidates_are_malformed() {
    let mut dict = Dict::new();
    match dict.add_dict_file_line("わた //") {
        Err(DictError::MalformedEntry(line)) => assert_eq!(line, "わた //"),
        _ => assert!(false),
    }
    // the failed insert left nothing behind
    assert!(dict.look_up(&vec!['わ', 'た'], &None).is_none());
}

#[test]
fn empty_reading_is_malformed() {
    let mut dict = Dict::new();
    match dict.add_dict_file_line(" /畔/") {
        Err(DictError::MalformedEntry(line)) => assert_eq!(line, " /畔/"),
        _ => assert!(false),
    }
}

#[test]
fn build_aborts_on_first_malformed_line() {
    let lines: Vec<String> = vec![
        "あい /う/".to_string(),
        "わた //".to_string(),
        "かき /く/".to_string(),
    ];
    match Dict::build(&lines) {
        Err(DictError::MalformedEntry(line)) => assert_eq!(line, "わた //"),
        _ => assert!(false),
    }
}

#[test]
fn end_to_end_lookups() {
    let lines: Vec<String> = vec![
        "あいて /陵缄/".to_string(),
        "わたs /畔/".to_string(),
        "わたr /畔/纤/鲜/灸/".to_string(),
    ];
    let dict = Dict::build(&lines).unwrap();
    match dict.look_up(&vec!['わ', 'た'], &Some('r')) {
        Some(kanjis) => {
            assert_eq!(kanjis.len(), 4);
            assert_eq!(kanjis[0], "畔");
            assert_eq!(kanjis[1], "纤");
            assert_eq!(kanjis[2], "鲜");
            assert_eq!(kanjis[3], "灸");
        },
        None => assert!(false),
    }
    match dict.look_up(&vec!['あ', 'い', 'て'], &None) {
        Some(kanjis) => {
            assert_eq!(kanjis.len(), 1);
            assert_eq!(kanjis[0], "陵缄");
        },
        None => assert!(false),
    }
    assert!(dict.look_up(&vec!['わ', 'た'], &None).is_none());
}
