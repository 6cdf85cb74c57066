use lib_utils::utilities::{
    util_concat_strvec, util_concat_strvec_flag, util_flaggedtxt_2vec, util_get_lastchar,
};

#[test]
fn paired_flags_extracts_between() {
    let text = "§alpha§beta§gamma§".to_string();
    let v = util_flaggedtxt_2vec(&text, '§');
    assert_eq!(v, vec!["alpha", "gamma"]);
}

#[test]
fn no_flags_gives_empty_result() {
    let text = "no flags here".to_string();
    let v = util_flaggedtxt_2vec(&text, '§');
    assert!(v.is_empty());
}

#[test]
fn empty_input_gives_empty_result() {
    let text = "".to_string();
    let v = util_flaggedtxt_2vec(&text, '§');
    assert!(v.is_empty());
}

#[test]
fn odd_flags_drop_trailing_content() {
    // three flags: the content after the last, unpaired flag is dropped
    let text = "head#mid#tail#rest".to_string();
    let v = util_flaggedtxt_2vec(&text, '#');
    assert_eq!(v, vec!["mid"]);
}

#[test]
fn single_flag_gives_empty_result() {
    let text = "left#right".to_string();
    let v = util_flaggedtxt_2vec(&text, '#');
    assert!(v.is_empty());
}

#[test]
fn input_is_trimmed_before_splitting() {
    let text = "  #a#\t\n".to_string();
    let v = util_flaggedtxt_2vec(&text, '#');
    assert_eq!(v, vec!["a"]);
}

#[test]
fn flag_inside_content_shifts_pairing() {
    let text = "a#b#c#d#e".to_string();
    let v = util_flaggedtxt_2vec(&text, '#');
    assert_eq!(v, vec!["b", "d"]);
}

#[test]
fn joiner_wraps_odd_positions() {
    let mut pieces = vec![
        "outer1".to_string(),
        "inner1".to_string(),
        "outer2".to_string(),
    ];
    let joined = util_concat_strvec_flag(&mut pieces, '§');
    assert_eq!(joined, "outer1§inner1§outer2");
    assert_eq!(pieces, vec!["outer1", "§inner1§", "outer2"]);
}

#[test]
fn joiner_on_empty_vector() {
    let mut pieces: Vec<String> = Vec::new();
    let joined = util_concat_strvec_flag(&mut pieces, '§');
    assert_eq!(joined, "");
    assert!(pieces.is_empty());
}

#[test]
fn joiner_wraps_every_second_element() {
    let mut pieces = vec![
        "a".to_string(),
        "b".to_string(),
        "c".to_string(),
        "d".to_string(),
    ];
    let joined = util_concat_strvec_flag(&mut pieces, '*');
    assert_eq!(joined, "a*b*c*d*");
    assert_eq!(pieces, vec!["a", "*b*", "c", "*d*"]);
}

#[test]
fn join_then_segment_returns_inner_pieces() {
    let mut pieces = vec![
        "out1".to_string(),
        "in1".to_string(),
        "out2".to_string(),
        "in2".to_string(),
        "out3".to_string(),
    ];
    let joined = util_concat_strvec_flag(&mut pieces, '#');
    assert_eq!(joined, "out1#in1#out2#in2#out3");
    let back = util_flaggedtxt_2vec(&joined, '#');
    assert_eq!(back, vec!["in1", "in2"]);
}

#[test]
fn concat_adds_single_trailing_spaces() {
    let pieces = vec!["hello".to_string(), "world".to_string()];
    assert_eq!(util_concat_strvec(&pieces), "hello world ");
}

#[test]
fn concat_keeps_existing_trailing_space() {
    let pieces = vec!["ab".to_string(), "cd ".to_string()];
    assert_eq!(util_concat_strvec(&pieces), "ab cd ");
}

#[test]
fn concat_of_nothing_is_empty() {
    let pieces: Vec<String> = Vec::new();
    assert_eq!(util_concat_strvec(&pieces), "");
}

#[test]
fn lastchar_of_text() {
    assert_eq!(util_get_lastchar(&"abc".to_string()), Some('c'));
}

#[test]
fn lastchar_of_multibyte_text() {
    assert_eq!(util_get_lastchar(&"più".to_string()), Some('ù'));
}

#[test]
fn lastchar_of_empty_text() {
    assert_eq!(util_get_lastchar(&"".to_string()), None);
}
