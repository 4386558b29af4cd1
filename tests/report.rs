use procure2pay::activities::distinct_activities;
use procure2pay::record::Timestamp;
use procure2pay::report::{convert_variants_to_strings, top_k};
use procure2pay::sampling::decimate_vec;

#[test]
fn decimate_drops_every_nth() {
    let v: Vec<u32> = (1..=10).collect();
    assert_eq!(decimate_vec(v.clone(), 3), vec![1, 2, 4, 5, 7, 8, 10]);
    assert_eq!(decimate_vec(v.clone(), 0), v);
    assert_eq!(decimate_vec(v.clone(), 1), Vec::<u32>::new());
    assert_eq!(decimate_vec(v.clone(), 11), v);
    assert_eq!(decimate_vec(Vec::<u32>::new(), 2), Vec::<u32>::new());
}

#[test]
fn top_k_takes_a_prefix() {
    let v = vec![(vec![0u8, 1], 5usize), (vec![2], 3), (vec![3, 4], 1)];
    assert_eq!(top_k(&v, 2), vec![(vec![0, 1], 5), (vec![2], 3)]);
    assert_eq!(top_k(&v, 10), v);
    assert_eq!(top_k(&v, 0), Vec::<(Vec<u8>, usize)>::new());
}

#[test]
fn variants_spelled_with_names() {
    let v = vec![(vec![0u8, 1], 2usize), (vec![4], 1)];
    let named = convert_variants_to_strings(&v);
    assert_eq!(
        named,
        vec![
            (
                vec!["Create purchase order item".to_string(), "Create MM invoice by vendor".to_string()],
                2
            ),
            (vec!["Clear open item".to_string()], 1),
        ]
    );
}

#[test]
fn distinct_activities_in_order_of_first_appearance() {
    let t = Timestamp::new(0, 0);
    let cases = vec![
        ("1".to_string(), t, "b".to_string()),
        ("2".to_string(), t, "a".to_string()),
        ("1".to_string(), t, "b".to_string()),
        ("3".to_string(), t, "c".to_string()),
        ("3".to_string(), t, "a".to_string()),
    ];
    assert_eq!(distinct_activities(&cases), vec!["b".to_string(), "a".to_string(), "c".to_string()]);
    assert_eq!(distinct_activities(&Vec::new()), Vec::<String>::new());
}
