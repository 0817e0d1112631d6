use mrecommender::errors::{ErrorKind, ParseError, SimpleError};
use mrecommender::num::{parse_i64, parse_item};
use mrecommender::text::{chars_of, string_of};

fn cs(s: &str) -> Vec<char> {
    chars_of(s)
}

#[test]
fn integers_parse_exactly() {
    assert_eq!(parse_i64(&cs("42")), Some(42));
    assert_eq!(parse_i64(&cs("-7")), Some(-7));
    assert_eq!(parse_i64(&cs("+5")), Some(5));
    assert_eq!(parse_i64(&cs("0")), Some(0));
    assert_eq!(parse_i64(&cs("9223372036854775807")), Some(i64::MAX));
    assert_eq!(parse_i64(&cs("-9223372036854775808")), Some(i64::MIN));
}

#[test]
fn bad_integers_are_rejected() {
    assert_eq!(parse_i64(&cs("")), None);
    assert_eq!(parse_i64(&cs("-")), None);
    assert_eq!(parse_i64(&cs("abc")), None);
    assert_eq!(parse_i64(&cs("12 ")), None);
    assert_eq!(parse_i64(&cs("1.5")), None);
    assert_eq!(parse_i64(&cs("9223372036854775808")), None);
    assert_eq!(parse_i64(&cs("-9223372036854775809")), None);
}

#[test]
fn items_truncate_toward_zero() {
    assert_eq!(parse_item(&cs("100.7")), Some(100));
    assert_eq!(parse_item(&cs("-3.9")), Some(-3));
    assert_eq!(parse_item(&cs("100")), Some(100));
    assert_eq!(parse_item(&cs(".5")), Some(0));
    assert_eq!(parse_item(&cs("5.")), Some(5));
    assert_eq!(parse_item(&cs("-0.5")), Some(0));
}

#[test]
fn bad_items_are_rejected() {
    assert_eq!(parse_item(&cs("")), None);
    assert_eq!(parse_item(&cs(".")), None);
    assert_eq!(parse_item(&cs("1.2.3")), None);
    assert_eq!(parse_item(&cs("1e3")), None);
    assert_eq!(parse_item(&cs("x")), None);
}

#[test]
fn out_of_range_items_saturate() {
    assert_eq!(parse_item(&cs("99999999999999999999")), Some(i64::MAX));
    assert_eq!(parse_item(&cs("-99999999999999999999.25")), Some(i64::MIN));
    assert_eq!(parse_item(&cs("9223372036854775808")), Some(i64::MAX));
    assert_eq!(parse_item(&cs("-9223372036854775808")), Some(i64::MIN));
}

#[test]
fn strings_round_through_char_vectors() {
    let v = chars_of("abc,def");
    assert_eq!(v, vec!['a', 'b', 'c', ',', 'd', 'e', 'f']);
    assert_eq!(string_of(&v), "abc,def");
}

#[test]
fn parse_error_message_names_line_and_value() {
    let e = ParseError { line_no: 12, value: "oops".to_string(), kind: ErrorKind::InvalidItem };
    assert_eq!(e.message(), "invalid item `oops` on line 12");
}

#[test]
fn simple_error_keeps_its_message() {
    let e = SimpleError::new("invalid command");
    assert_eq!(e.message(), "invalid command");
}
