use minskk::dict::Dict;
use minskk::text::lines_from_bytes;

#[test]
fn euc_jp_bytes_become_decoded_lines() {
    // "あい /う/\nわたs /え/\n" in EUC-JP
    let data: Vec<u8> = vec![
        0xa4, 0xa2, 0xa4, 0xa4, 0x20, 0x2f, 0xa4, 0xa6, 0x2f, 0x0a, // あい /う/
        0xa4, 0xef, 0xa4, 0xbf, 0x73, 0x20, 0x2f, 0xa4, 0xa8, 0x2f, 0x0a, // わたs /え/
    ];
    let lines = lines_from_bytes(&data);
    assert_eq!(lines, vec!["あい /う/".to_string(), "わたs /え/".to_string()]);

    let dict = Dict::build(&lines).unwrap();
    match dict.look_up(&vec!['あ', 'い'], &None) {
        Some(kanjis) => assert_eq!(kanjis[0], "う"),
        None => assert!(false),
    }
    match dict.look_up(&vec!['わ', 'た'], &Some('s')) {
        Some(kanjis) => assert_eq!(kanjis[0], "え"),
        None => assert!(false),
    }
}

#[test]
fn last_line_without_terminator_is_kept() {
    // "あ /い/" with no trailing newline
    let data: Vec<u8> = vec![0xa4, 0xa2, 0x20, 0x2f, 0xa4, 0xa4, 0x2f];
    let lines = lines_from_bytes(&data);
    assert_eq!(lines, vec!["あ /い/".to_string()]);
}

#[test]
fn blank_and_comment_lines_pass_through() {
    // ";;c\n\nあ /い/\n" — a comment line, an empty line, an entry
    let data: Vec<u8> = vec![
        0x3b, 0x3b, 0x63, 0x0a, 0x0a, 0xa4, 0xa2, 0x20, 0x2f, 0xa4, 0xa4, 0x2f, 0x0a,
    ];
    let lines = lines_from_bytes(&data);
    assert_eq!(
        lines,
        vec![";;c".to_string(), "".to_string(), "あ /い/".to_string()],
    );
    let dict = Dict::build(&lines).unwrap();
    match dict.look_up(&vec!['あ'], &None) {
        Some(kanjis) => assert_eq!(kanjis[0], "い"),
        None => assert!(false),
    }
}

#[test]
fn empty_input_yields_no_lines() {
    let data: Vec<u8> = vec![];
    let lines = lines_from_bytes(&data);
    assert!(lines.is_empty());
}
