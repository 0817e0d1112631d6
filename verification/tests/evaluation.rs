use mrecommender::aggregate::prepare_dataset;
use mrecommender::errors::ErrorKind;
use mrecommender::evaluate::{
    count_hits, evaluate_response, parse_dataset_line, split_train_test, AggregateScore,
    UserScore,
};

#[test]
fn dataset_line_parses() {
    let r = parse_dataset_line("7: 1,2,3,4,5", 0).unwrap();
    assert_eq!(r.user_id, 7);
    assert_eq!(r.items, vec![1, 2, 3, 4, 5]);
}

#[test]
fn missing_separator_is_fatal() {
    let e = parse_dataset_line("7 1,2,3", 0).unwrap_err();
    assert_eq!(e.kind, ErrorKind::InvalidSeparator);
    assert_eq!(e.value, "7 1,2,3");
}

#[test]
fn two_separators_are_fatal() {
    let e = parse_dataset_line("7: 1:2", 0).unwrap_err();
    assert_eq!(e.kind, ErrorKind::InvalidSeparator);
}

#[test]
fn bad_dataset_user_is_fatal() {
    let e = parse_dataset_line("x: 1,2", 3).unwrap_err();
    assert_eq!(e.kind, ErrorKind::InvalidUserId);
    assert_eq!(e.line_no, 3);
    assert_eq!(e.value, "x");
}

#[test]
fn bad_dataset_item_is_fatal() {
    let e = parse_dataset_line("7: 1,x,3", 0).unwrap_err();
    assert_eq!(e.kind, ErrorKind::InvalidItem);
    assert_eq!(e.value, "x");
}

#[test]
fn empty_items_part_is_fatal() {
    let e = parse_dataset_line("7: ", 0).unwrap_err();
    assert_eq!(e.kind, ErrorKind::InvalidItem);
}

#[test]
fn split_is_eighty_twenty() {
    let items: Vec<i64> = vec![1, 2, 3, 4, 5];
    let (train, test) = split_train_test(&items);
    assert_eq!(train, vec![1, 2, 3, 4]);
    assert_eq!(test, vec![5]);
}

#[test]
fn split_sizes_match_floor_rule() {
    for n in 0..50usize {
        let items: Vec<i64> = (0..n as i64).collect();
        let (train, test) = split_train_test(&items);
        assert_eq!(train.len(), n * 4 / 5);
        assert_eq!(test.len(), n - n * 4 / 5);
        let mut joined = train.clone();
        joined.extend(test.clone());
        assert_eq!(joined, items);
    }
}

#[test]
fn split_of_two_items_keeps_test_nonempty() {
    let items: Vec<i64> = vec![10, 20];
    let (train, test) = split_train_test(&items);
    assert_eq!(train, vec![10]);
    assert_eq!(test, vec![20]);
}

#[test]
fn hits_count_distinct_matches() {
    let test: Vec<i64> = vec![4, 5, 6];
    let rec: Vec<i64> = vec![4, 4, 5, 9];
    assert_eq!(count_hits(&test, &rec), 2);
}

#[test]
fn duplicate_recommendations_count_once() {
    let test: Vec<i64> = vec![4];
    let rec: Vec<i64> = vec![4, 4, 4];
    assert_eq!(count_hits(&test, &rec), 1);
}

#[test]
fn stub_endpoint_scenario_scores_full_marks() {
    let rec = parse_dataset_line("7: 1,2,3,4,5", 0).unwrap();
    let (train, test) = split_train_test(&rec.items);
    assert_eq!(train, vec![1, 2, 3, 4]);
    assert_eq!(test, vec![5]);
    let recommended: Vec<i64> = vec![4, 5];
    let score = evaluate_response(&rec, &recommended);
    assert_eq!(score.hits, 1);
    assert_eq!(score.test_len, 1);
    assert_eq!(score.guarded_ratio(), (1, 1));
}

#[test]
fn empty_test_part_never_divides_by_zero() {
    let s = UserScore { hits: 0, test_len: 0 };
    let (num, den) = s.guarded_ratio();
    assert_eq!((num, den), (0, 1));
    assert!(den >= 1);
}

#[test]
fn aggregate_score_keeps_every_user() {
    let mut agg = AggregateScore::new();
    agg.record(UserScore { hits: 1, test_len: 2 });
    agg.record(UserScore { hits: 0, test_len: 0 });
    assert_eq!(agg.user_count(), 2);
    assert_eq!(agg.ratios(), vec![(1, 2), (0, 1)]);
}

#[test]
fn aggregator_output_round_trips() {
    let mut lines: Vec<String> = Vec::new();
    for i in 0..30 {
        lines.push(format!("42,{},2020-01-01", 100 + i));
    }
    for i in 0..25 {
        lines.push(format!("-7,{},x", i * 3));
    }
    let out = prepare_dataset(&lines).unwrap();
    assert_eq!(out.len(), 2);
    let r0 = parse_dataset_line(&out[0], 0).unwrap();
    assert_eq!(r0.user_id, 42);
    assert_eq!(r0.items, (100..130).collect::<Vec<i64>>());
    let r1 = parse_dataset_line(&out[1], 1).unwrap();
    assert_eq!(r1.user_id, -7);
    assert_eq!(r1.items, (0..25).map(|i| i * 3).collect::<Vec<i64>>());
}

#[test]
fn dataset_line_tolerates_padding_around_parts() {
    let r = parse_dataset_line("  7 :  1,2", 0).unwrap();
    assert_eq!(r.user_id, 7);
    assert_eq!(r.items, vec![1, 2]);
}

#[test]
fn spaced_items_are_fatal() {
    let e = parse_dataset_line("7: 1, 2", 0).unwrap_err();
    assert_eq!(e.kind, ErrorKind::InvalidItem);
    assert_eq!(e.value, " 2");
}
