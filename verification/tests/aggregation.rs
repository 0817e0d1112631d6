use mrecommender::aggregate::{parse_raw_line, prepare_dataset, RowOutcome};
use mrecommender::errors::ErrorKind;

fn prepare(lines: Vec<&str>) -> Result<Vec<String>, mrecommender::errors::ParseError> {
    let owned: Vec<String> = lines.into_iter().map(|s| s.to_string()).collect();
    prepare_dataset(&owned)
}

#[test]
fn null_marker_user_is_skipped_silently() {
    let r = prepare(vec!["<nil>,100,2020-01-01"]);
    assert_eq!(r.unwrap(), Vec::<String>::new());
}

#[test]
fn null_marker_item_is_skipped_silently() {
    let r = prepare(vec!["7,<nil>,2020-01-01"]);
    assert_eq!(r.unwrap(), Vec::<String>::new());
}

#[test]
fn null_marker_rows_leave_other_rows_alone() {
    let mut lines: Vec<String> = vec!["<nil>,1,x".to_string()];
    for i in 0..25 {
        lines.push(format!("9,{},2020-01-01", 100 + i));
    }
    lines.push("<nil>,2,x".to_string());
    let out = prepare_dataset(&lines).unwrap();
    assert_eq!(out.len(), 1);
    let expected: Vec<String> = (0..25).map(|i| (100 + i).to_string()).collect();
    assert_eq!(out[0], format!("9: {}", expected.join(",")));
}

#[test]
fn parse_raw_line_reads_record() {
    let r = parse_raw_line("42,100,2020-01-01", 0).unwrap();
    assert_eq!(r, RowOutcome::Record { user: 42, item: 100 });
}

#[test]
fn parse_raw_line_strips_quotes() {
    let r = parse_raw_line("\"42\",\"100\",x", 0).unwrap();
    assert_eq!(r, RowOutcome::Record { user: 42, item: 100 });
}

#[test]
fn parse_raw_line_truncates_decimal_item() {
    let r = parse_raw_line("42,100.7,x", 0).unwrap();
    assert_eq!(r, RowOutcome::Record { user: 42, item: 100 });
}

#[test]
fn missing_field_is_fatal() {
    let e = prepare(vec!["justonefield"]).unwrap_err();
    assert_eq!(e.kind, ErrorKind::MissingField);
    assert_eq!(e.line_no, 0);
    assert_eq!(e.value, "justonefield");
}

#[test]
fn bad_user_id_is_fatal_with_line_and_value() {
    let e = prepare(vec!["1,2,x", "abc,2,x"]).unwrap_err();
    assert_eq!(e.kind, ErrorKind::InvalidUserId);
    assert_eq!(e.line_no, 1);
    assert_eq!(e.value, "abc");
    assert_eq!(e.message(), "invalid user id `abc` on line 1");
}

#[test]
fn bad_item_id_is_fatal_with_line_and_value() {
    let e = prepare(vec!["1,not-a-number,x"]).unwrap_err();
    assert_eq!(e.kind, ErrorKind::InvalidItemId);
    assert_eq!(e.line_no, 0);
    assert_eq!(e.value, "not-a-number");
}

#[test]
fn thirty_distinct_items_emit_one_line() {
    let mut lines: Vec<String> = Vec::new();
    for i in 0..30 {
        lines.push(format!("42,{},2020-01-01", 100 + i));
    }
    let out = prepare_dataset(&lines).unwrap();
    let expected_items: Vec<String> = (100..130).map(|x| x.to_string()).collect();
    assert_eq!(out, vec![format!("42: {}", expected_items.join(","))]);
}

#[test]
fn twenty_four_items_emit_nothing() {
    let mut lines: Vec<String> = Vec::new();
    for i in 0..24 {
        lines.push(format!("42,{},x", 100 + i));
    }
    let out = prepare_dataset(&lines).unwrap();
    assert_eq!(out, Vec::<String>::new());
}

#[test]
fn adjacent_duplicates_collapse_before_threshold() {
    // 30 raw rows, but adjacent repeats compress to 24 items: no output.
    let mut lines: Vec<String> = Vec::new();
    for i in 0..24 {
        lines.push(format!("42,{},x", 100 + i));
    }
    for _ in 0..6 {
        lines.push("42,123,x".to_string());
    }
    let out = prepare_dataset(&lines).unwrap();
    assert_eq!(out, Vec::<String>::new());
}

#[test]
fn non_adjacent_duplicates_survive() {
    // a,b,a,... : non-adjacent repeats are kept, so 26 rows give 26 items.
    let mut lines: Vec<String> = Vec::new();
    for i in 0..26 {
        let item = if i % 2 == 0 { 1 } else { 2 };
        lines.push(format!("5,{},x", item));
    }
    let out = prepare_dataset(&lines).unwrap();
    assert_eq!(out.len(), 1);
    let expected: Vec<String> = (0..26)
        .map(|i| if i % 2 == 0 { "1".to_string() } else { "2".to_string() })
        .collect();
    assert_eq!(out[0], format!("5: {}", expected.join(",")));
}

#[test]
fn users_are_kept_separate() {
    let mut lines: Vec<String> = Vec::new();
    for i in 0..25 {
        lines.push(format!("1,{},x", 100 + i));
        lines.push(format!("2,{},x", 200 + i));
    }
    let out = prepare_dataset(&lines).unwrap();
    assert_eq!(out.len(), 2);
    let one: Vec<String> = (100..125).map(|x| x.to_string()).collect();
    let two: Vec<String> = (200..225).map(|x| x.to_string()).collect();
    assert_eq!(out[0], format!("1: {}", one.join(",")));
    assert_eq!(out[1], format!("2: {}", two.join(",")));
}

#[test]
fn negative_ids_round_through() {
    let mut lines: Vec<String> = Vec::new();
    for i in 0..25 {
        lines.push(format!("-3,{},x", -(100 + i)));
    }
    let out = prepare_dataset(&lines).unwrap();
    let expected: Vec<String> = (0..25).map(|i| (-(100 + i)).to_string()).collect();
    assert_eq!(out, vec![format!("-3: {}", expected.join(","))]);
}

#[test]
fn huge_item_saturates() {
    let r = parse_raw_line("1,99999999999999999999.5,x", 0).unwrap();
    assert_eq!(r, RowOutcome::Record { user: 1, item: i64::MAX });
}
