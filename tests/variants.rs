use chrono::NaiveDateTime;
use procure2pay::activities;
use procure2pay::parallel;
use procure2pay::record::{Record, Timestamp};
use procure2pay::sequential;
use procure2pay::trace::UnknownActivity;

fn parse_date(date_str: &str) -> NaiveDateTime {
    let datetime_str = format!("{} 00:00:00", date_str);
    NaiveDateTime::parse_from_str(&datetime_str, "%Y-%m-%d %H:%M:%S").unwrap()
}

fn stamp(dt: NaiveDateTime) -> Timestamp {
    let utc = dt.and_utc();
    Timestamp::new(utc.timestamp(), utc.timestamp_subsec_nanos())
}

fn date(date_str: &str) -> Timestamp {
    stamp(parse_date(date_str))
}

fn both(cases: Vec<Record>) -> Result<Vec<(Vec<u8>, usize)>, UnknownActivity> {
    let seq = sequential::process_cases(cases.clone());
    let par = parallel::process_cases(cases);
    assert_eq!(seq, par);
    seq
}

fn process_cases(cases: Vec<Record>) -> Vec<(Vec<u8>, usize)> {
    both(cases).unwrap()
}

fn generate_test_cases_from_variants(variants: Vec<(Vec<u8>, usize)>) -> Vec<Record> {
    let mut cases = Vec::new();
    let mut case_id_counter = 1;
    for (sequence, count) in variants {
        for i in 0..count {
            let current_date = parse_date("2024-08-18") + chrono::Duration::days(i as i64);
            for (i, &activity_num) in sequence.iter().enumerate() {
                let activity_name = activities::num_to_str(activity_num);
                let timestamp = current_date + chrono::Duration::days(i as i64);
                cases.push((case_id_counter.to_string(), stamp(timestamp), activity_name.to_string()));
            }
            case_id_counter += 1;
        }
    }
    cases
}

fn sorted(mut t: Vec<(Vec<u8>, usize)>) -> Vec<(Vec<u8>, usize)> {
    t.sort();
    t
}

#[test]
fn test_common_set() {
    let cases = vec![
        ("1".to_string(), date("2024-08-17"), activities::num_to_str(0).to_string()),
        ("1".to_string(), date("2024-08-18"), activities::num_to_str(1).to_string()),
        ("2".to_string(), date("2024-08-17"), activities::num_to_str(0).to_string()),
        ("2".to_string(), date("2024-08-18"), activities::num_to_str(1).to_string()),
    ];
    let result = process_cases(cases);
    let expected_variants = vec![(vec![0, 1], 2)];
    assert_eq!(result.len(), 1);
    assert_eq!(result, expected_variants);
}

#[test]
fn test_one_valid_activity() {
    let cases = vec![("1".to_string(), date("2024-08-18"), "Clear open item".to_string())];
    let result = process_cases(cases);
    assert_eq!(result.len(), 1);
}

#[test]
fn test_invalid_activity() {
    let cases = vec![("1".to_string(), date("2024-08-18"), "Activity A".to_string())];
    let result = both(cases);
    assert!(result.is_err());
}

#[test]
fn test_no_input() {
    let cases: Vec<Record> = Vec::new();
    assert_eq!(process_cases(cases), Vec::new());
}

#[test]
fn test_duplicate_activities_in_case() {
    let cases = vec![
        ("001".to_string(), date("2024-08-17"), activities::num_to_str(0).to_string()),
        ("001".to_string(), date("2024-08-18"), activities::num_to_str(0).to_string()),
        ("001".to_string(), date("2024-08-17"), activities::num_to_str(0).to_string()),
        ("001".to_string(), date("2024-08-18"), activities::num_to_str(0).to_string()),
    ];
    let result = process_cases(cases);
    let expected_variants = vec![(vec![0], 1)];
    assert_eq!(result.len(), 1);
    assert_eq!(result, expected_variants);
}

#[test]
fn test_activities_with_the_same_timestamp() {
    let cases = vec![
        ("001".to_string(), date("2024-08-17"), activities::num_to_str(0).to_string()),
        ("001".to_string(), date("2024-08-17"), activities::num_to_str(1).to_string()),
        ("001".to_string(), date("2024-08-17"), activities::num_to_str(0).to_string()),
        ("001".to_string(), date("2024-08-17"), activities::num_to_str(1).to_string()),
    ];
    let result = process_cases(cases);
    let expected_variants = vec![(vec![1, 0], 1)];
    assert_eq!(result.len(), 1);
    assert_eq!(result, expected_variants);
}

#[test]
fn test_more_cases_with_one_variants() {
    let cases = vec![
        ("1".to_string(), date("2024-08-18"), activities::num_to_str(0).to_string()),
        ("2".to_string(), date("2024-08-18"), activities::num_to_str(0).to_string()),
        ("3".to_string(), date("2024-08-18"), activities::num_to_str(0).to_string()),
        ("4".to_string(), date("2024-08-18"), activities::num_to_str(0).to_string()),
    ];
    let result = process_cases(cases);
    let expected_variants = vec![(vec![0], 4)];
    assert_eq!(result.len(), 1);
    assert_eq!(result, expected_variants);
}

#[test]
fn test_long_variant() {
    let count = 20;
    let mut cases = Vec::with_capacity(count);
    for i in 1..=count {
        let d = parse_date("2024-08-18") + chrono::Duration::days(i as i64);
        let activity_name = activities::num_to_str(i as u8);
        cases.push(("1".to_string(), stamp(d), activity_name.to_string()));
    }
    let result = process_cases(cases);
    let expected_variants =
        vec![(vec![1, 2, 3, 4, 5, 6, 7, 8, 9, 10, 11, 12, 13, 14, 15, 16, 17, 18, 19, 20], 1)];
    assert_eq!(result.len(), 1);
    assert_eq!(result, expected_variants);
}

#[test]
fn test_generated_from_expected_variants() {
    let expected_variants = vec![(vec![1, 2, 3], 3), (vec![1, 2], 2), (vec![1], 1)];
    let cases = generate_test_cases_from_variants(expected_variants.clone());
    let result = process_cases(cases);
    assert_eq!(result, expected_variants);
}

#[test]
fn unknown_activity_is_named_in_the_error() {
    let cases = vec![
        ("1".to_string(), date("2024-08-18"), "Create purchase order item".to_string()),
        ("2".to_string(), date("2024-08-18"), "Activity A".to_string()),
    ];
    let err = both(cases).unwrap_err();
    assert_eq!(err.name, "Activity A".to_string());
    let err = parallel::process_cases_with_workers(
        vec![("9".to_string(), date("2024-08-18"), "Not an activity".to_string())],
        4,
    )
    .unwrap_err();
    assert_eq!(err.name, "Not an activity".to_string());
}

fn big_log() -> Vec<Record> {
    // 120 cases over four shapes, 3 to 5 events each, in scrambled arrival order.
    let shapes: Vec<Vec<u8>> = vec![vec![0, 1, 6, 8], vec![0, 6, 6, 8, 4], vec![0, 1, 1], vec![3, 0, 1, 6]];
    let mut cases = Vec::new();
    for c in 0..120usize {
        let shape = &shapes[(c * 7) % 4];
        for (k, &code) in shape.iter().enumerate() {
            let d = parse_date("2024-01-01") + chrono::Duration::hours((k * 3 + c % 5) as i64);
            cases.push((format!("case{:03}", c), stamp(d), activities::num_to_str(code).to_string()));
        }
    }
    let n = cases.len();
    let mut scrambled = Vec::with_capacity(n);
    for i in 0..n {
        scrambled.push(cases[(i * 37) % n].clone());
    }
    scrambled
}

#[test]
fn worker_counts_do_not_change_the_variants() {
    let cases = big_log();
    assert!(cases.len() >= parallel::PARALLEL_THRESHOLD);
    let expected = sorted(sequential::process_cases(cases.clone()).unwrap());
    for w in [0usize, 1, 2, 3, 7, 16, 1000] {
        let got = parallel::process_cases_with_workers(cases.clone(), w).unwrap();
        assert_eq!(sorted(got), expected);
    }
    assert_eq!(
        expected,
        vec![(vec![0, 1], 30), (vec![0, 1, 6, 8], 30), (vec![0, 6, 8, 4], 30), (vec![3, 0, 1, 6], 30)]
    );
}

#[test]
fn counts_add_up_to_the_number_of_cases() {
    let cases = big_log();
    let result = parallel::process_cases(cases).unwrap();
    let total: usize = result.iter().map(|v| v.1).sum();
    assert_eq!(total, 120);
}

#[test]
fn result_is_ranked_by_count() {
    let cases = generate_test_cases_from_variants(vec![
        (vec![1], 1),
        (vec![4, 5], 4),
        (vec![2, 3], 2),
        (vec![7], 3),
    ]);
    let result = process_cases(cases);
    let counts: Vec<usize> = result.iter().map(|v| v.1).collect();
    assert_eq!(counts, vec![4, 3, 2, 1]);
    assert_eq!(result[0].0, vec![4, 5]);
}

#[test]
fn repeating_the_last_activity_keeps_the_trace() {
    let base = vec![
        ("7".to_string(), date("2024-08-17"), activities::num_to_str(0).to_string()),
        ("7".to_string(), date("2024-08-18"), activities::num_to_str(6).to_string()),
    ];
    let before = process_cases(base.clone());
    let mut same_time = base.clone();
    same_time.push(("7".to_string(), date("2024-08-18"), activities::num_to_str(6).to_string()));
    let mut later = base.clone();
    later.push(("7".to_string(), date("2024-08-20"), activities::num_to_str(6).to_string()));
    assert_eq!(before, vec![(vec![0, 6], 1)]);
    assert_eq!(process_cases(same_time), before);
    assert_eq!(process_cases(later), before);
}

#[test]
fn same_timestamp_order_ignores_arrival_order() {
    // "Create MM invoice by vendor" sorts before "Create purchase order item".
    let a = ("5".to_string(), date("2024-08-17"), activities::num_to_str(0).to_string());
    let b = ("5".to_string(), date("2024-08-17"), activities::num_to_str(1).to_string());
    assert_eq!(process_cases(vec![a.clone(), b.clone()]), vec![(vec![1, 0], 1)]);
    assert_eq!(process_cases(vec![b, a]), vec![(vec![1, 0], 1)]);
}

#[test]
fn sub_second_timestamps_order_events() {
    let cases = vec![
        ("1".to_string(), Timestamp::new(100, 500), activities::num_to_str(2).to_string()),
        ("1".to_string(), Timestamp::new(100, 20), activities::num_to_str(9).to_string()),
        ("1".to_string(), Timestamp::new(-5, 999), activities::num_to_str(3).to_string()),
    ];
    assert_eq!(process_cases(cases), vec![(vec![3, 9, 2], 1)]);
}

#[test]
fn split_points_fall_between_cases() {
    let mut cases = big_log();
    cases.sort_by(|a, b| procure2pay::record::compare_records(a, b));
    for w in [1usize, 2, 5, 9, 40] {
        let splits = parallel::split_points(&cases, w);
        assert_eq!(splits[0], 0);
        assert_eq!(*splits.last().unwrap(), cases.len());
        assert!(splits.len() <= w + 1);
        for k in 1..splits.len() {
            assert!(splits[k - 1] < splits[k]);
            if k < splits.len() - 1 {
                assert_ne!(cases[splits[k] - 1].0, cases[splits[k]].0);
            }
        }
    }
    let splits = parallel::split_points(&cases, 4);
    assert_eq!(splits.len(), 5);
}
