use lib_utils::input_utilities::{
    bool_from_response, first_char, parse_i64, parse_i64_in_range, RangeCheck,
};

#[test]
fn parses_plain_numbers() {
    assert_eq!(parse_i64("42"), Some(42));
    assert_eq!(parse_i64("0"), Some(0));
    assert_eq!(parse_i64("007"), Some(7));
}

#[test]
fn parses_signed_numbers() {
    assert_eq!(parse_i64("+7"), Some(7));
    assert_eq!(parse_i64("-13"), Some(-13));
    assert_eq!(parse_i64("-0"), Some(0));
}

#[test]
fn parses_extreme_values() {
    assert_eq!(parse_i64("9223372036854775807"), Some(i64::MAX));
    assert_eq!(parse_i64("-9223372036854775808"), Some(i64::MIN));
}

#[test]
fn rejects_values_out_of_i64() {
    assert_eq!(parse_i64("9223372036854775808"), None);
    assert_eq!(parse_i64("-9223372036854775809"), None);
    assert_eq!(parse_i64("99999999999999999999999"), None);
}

#[test]
fn rejects_malformed_numbers() {
    assert_eq!(parse_i64(""), None);
    assert_eq!(parse_i64("+"), None);
    assert_eq!(parse_i64("-"), None);
    assert_eq!(parse_i64("12a"), None);
    assert_eq!(parse_i64(" 5"), None);
    assert_eq!(parse_i64("4 2"), None);
    assert_eq!(parse_i64("--4"), None);
}

#[test]
fn range_decision_accepts_within() {
    assert_eq!(parse_i64_in_range("5", 1, 10), RangeCheck::InRange(5));
    assert_eq!(parse_i64_in_range("1", 1, 10), RangeCheck::InRange(1));
    assert_eq!(parse_i64_in_range("10", 1, 10), RangeCheck::InRange(10));
}

#[test]
fn range_decision_flags_outside() {
    assert_eq!(parse_i64_in_range("0", 1, 10), RangeCheck::OutOfRange);
    assert_eq!(parse_i64_in_range("11", 1, 10), RangeCheck::OutOfRange);
    assert_eq!(parse_i64_in_range("-3", 1, 10), RangeCheck::OutOfRange);
}

#[test]
fn range_decision_flags_garbage() {
    assert_eq!(parse_i64_in_range("ten", 1, 10), RangeCheck::Invalid);
    assert_eq!(parse_i64_in_range("", 1, 10), RangeCheck::Invalid);
}

#[test]
fn affirmative_responses() {
    assert_eq!(bool_from_response("yes"), Some(true));
    assert_eq!(bool_from_response("Yes"), Some(true));
    assert_eq!(bool_from_response("YES"), Some(true));
    assert_eq!(bool_from_response("y"), Some(true));
    assert_eq!(bool_from_response("Y"), Some(true));
    assert_eq!(bool_from_response("true"), Some(true));
    assert_eq!(bool_from_response("True"), Some(true));
    assert_eq!(bool_from_response("t"), Some(true));
    assert_eq!(bool_from_response("T"), Some(true));
}

#[test]
fn negative_responses() {
    assert_eq!(bool_from_response("no"), Some(false));
    assert_eq!(bool_from_response("No"), Some(false));
    assert_eq!(bool_from_response("NO"), Some(false));
    assert_eq!(bool_from_response("n"), Some(false));
    assert_eq!(bool_from_response("N"), Some(false));
    assert_eq!(bool_from_response("false"), Some(false));
    assert_eq!(bool_from_response("False"), Some(false));
    assert_eq!(bool_from_response("f"), Some(false));
    assert_eq!(bool_from_response("F"), Some(false));
}

#[test]
fn unrecognised_responses() {
    assert_eq!(bool_from_response("maybe"), None);
    assert_eq!(bool_from_response(""), None);
    assert_eq!(bool_from_response(" yes"), None);
    assert_eq!(bool_from_response("yess"), None);
    assert_eq!(bool_from_response("truee"), None);
}

#[test]
fn first_char_of_word() {
    assert_eq!(first_char("hello"), Some('h'));
    assert_eq!(first_char("h"), Some('h'));
}

#[test]
fn first_char_of_empty_word() {
    assert_eq!(first_char(""), None);
}
