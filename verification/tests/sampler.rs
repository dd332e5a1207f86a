use std::collections::BTreeSet;

use ulpf::generator::sampler::{diverse_indices, diverse_samples};

fn cluster() -> Vec<String> {
    let mut v: Vec<String> = (0..20)
        .map(|i| format!("fw accept src=10.0.0.{i} dst=8.8.8.8 proto=tcp"))
        .collect();
    v.push("fw deny src=10.0.0.99 dst=1.1.1.1 proto=udp reason=policy".into());
    v.push("fw drop src=192.168.5.5 dst=9.9.9.9 proto=icmp ttl=1".into());
    v
}

#[test]
fn selection_reaches_the_variation_that_take_n_would_miss() {
    let records = cluster();
    let picked = diverse_samples(&records, 3);
    assert!(
        picked.iter().any(|r| r.contains("deny")),
        "diverse selection missed the deny shape: {picked:?}"
    );
    assert!(
        picked.iter().any(|r| r.contains("drop")),
        "diverse selection missed the drop shape: {picked:?}"
    );
}

#[test]
fn first_n_really_does_miss_it() {
    let records = cluster();
    let naive: Vec<&String> = records.iter().take(3).collect();
    assert!(naive.iter().all(|r| r.contains("accept")));
}

#[test]
fn selection_is_stable_across_runs() {
    let records = cluster();
    let first = diverse_indices(&records, 5);
    for _ in 0..5 {
        assert_eq!(diverse_indices(&records, 5), first);
    }
}

#[test]
fn asking_for_more_than_exists_returns_everything_once() {
    let records = vec!["a b c".to_string(), "d e f".to_string()];
    assert_eq!(diverse_samples(&records, 10), records);
}

#[test]
fn handles_empty_and_degenerate_input() {
    assert!(diverse_samples(&[], 5).is_empty());
    assert!(diverse_samples(&["x".to_string()], 0).is_empty());
    let blanks = vec![String::new(), String::new(), String::new()];
    assert_eq!(diverse_samples(&blanks, 2).len(), 2);
}

#[test]
fn identical_records_do_not_loop_or_duplicate() {
    let same: Vec<String> = std::iter::repeat_n("same line here".to_string(), 10).collect();
    let picked = diverse_indices(&same, 4);
    assert_eq!(picked.len(), 4);
    let unique: BTreeSet<usize> = picked.iter().copied().collect();
    assert_eq!(unique.len(), 4, "an index was selected twice");
}

#[test]
fn the_traversal_starts_from_the_shortest_record() {
    let records = vec![
        "a b c d".to_string(),
        "a b".to_string(),
        "x y".to_string(),
        "a b c".to_string(),
    ];
    let picked = diverse_indices(&records, 2);
    // "a b" is the first of the two shortest; "x y" shares nothing with it.
    assert_eq!(picked, vec![1, 2]);
}

#[test]
fn the_least_similar_record_is_picked_next() {
    let records = vec![
        "k=1 a".to_string(),
        "k=1 a b".to_string(),
        "k=1 c d e".to_string(),
    ];
    // From "k=1 a": {k,1,a,b} shares 3 of 4, {k,1,c,d,e} shares 2 of 6.
    assert_eq!(diverse_indices(&records, 2), vec![0, 2]);
}
