//! Tests of the disjoint grouping engine.

use fdup::grouping::Outcome;
use fdup::grouping::disjoint_by_filter_map;

fn found(k: u64, name: &str) -> (Outcome<u64>, String) {
    (Outcome::Found(k), name.to_string())
}

#[test]
fn grouping_basic() {
    let outcomes: Vec<(Outcome<u64>, String)> = vec![
        found(5, "a"),
        found(7, "b"),
        found(5, "c"),
        found(9, "d"),
        found(7, "e"),
        found(5, "f"),
    ];
    let (groups, diags) = disjoint_by_filter_map(outcomes, 1);
    assert!(diags.is_empty());
    // groups come in order of the key's first occurrence, members in
    // input order; the singleton class of key 9 is dropped
    assert_eq!(
        groups,
        vec![
            vec!["a".to_string(), "c".to_string(), "f".to_string()],
            vec!["b".to_string(), "e".to_string()],
        ]
    );
}

#[test]
fn threshold_boundary() {
    // a class of exactly `threshold` items is excluded; a class of
    // `threshold + 1` items is included in full
    let outcomes: Vec<(Outcome<u64>, String)> = vec![
        found(7, "a"),
        found(7, "b"),
        found(9, "c"),
        found(9, "d"),
        found(9, "e"),
    ];
    let (groups, diags) = disjoint_by_filter_map(outcomes, 2);
    assert!(diags.is_empty());
    assert_eq!(
        groups,
        vec![vec!["c".to_string(), "d".to_string(), "e".to_string()]]
    );
}

#[test]
fn threshold_zero_keeps_singletons() {
    let outcomes: Vec<(Outcome<u64>, String)> = vec![found(1, "a"), found(2, "b")];
    let (groups, diags) = disjoint_by_filter_map(outcomes, 0);
    assert!(diags.is_empty());
    assert_eq!(groups, vec![vec!["a".to_string()], vec!["b".to_string()]]);
}

#[test]
fn error_isolation() {
    // an unreadable candidate among otherwise identical ones does not
    // suppress the group formed by the rest
    let with_failure: Vec<(Outcome<u64>, String)> = vec![
        found(5, "a"),
        (Outcome::Fail("permission denied".to_string()), "b".to_string()),
        found(5, "c"),
        found(5, "d"),
    ];
    let (groups, diags) = disjoint_by_filter_map(with_failure, 1);
    assert_eq!(
        groups,
        vec![vec!["a".to_string(), "c".to_string(), "d".to_string()]]
    );
    assert_eq!(
        diags,
        vec![("b".to_string(), "permission denied".to_string())]
    );

    let without: Vec<(Outcome<u64>, String)> =
        vec![found(5, "a"), found(5, "c"), found(5, "d")];
    let (groups2, diags2) = disjoint_by_filter_map(without, 1);
    assert_eq!(groups, groups2);
    assert!(diags2.is_empty());
}

#[test]
fn skipped_candidates_are_silent() {
    let outcomes: Vec<(Outcome<u64>, String)> = vec![
        found(5, "a"),
        (Outcome::Skip, "dir".to_string()),
        found(5, "b"),
    ];
    let (groups, diags) = disjoint_by_filter_map(outcomes, 1);
    assert_eq!(groups, vec![vec!["a".to_string(), "b".to_string()]]);
    assert!(diags.is_empty());
}
