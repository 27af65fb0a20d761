//! Tests of the two-stage pipeline, driven over synthetic trees whose
//! candidates carry a path and a content.

use fdup::grouping::Outcome;
use fdup::hashing::checksum;
use fdup::keys::Digest;
use fdup::keys::FileMeta;
use fdup::keys::filesize;
use fdup::pipeline::Pipeline;

/// Run the whole pipeline over a tree given as (path, content) pairs,
/// the way the binary drives it over a real directory.
fn run_pipeline(sort_vec: bool, tree: &[(&str, &str)]) -> Vec<Vec<String>> {
    let mut p = Pipeline::new(sort_vec);
    let size_outcomes: Vec<(Outcome<u64>, String)> = tree
        .iter()
        .map(|(path, content)| {
            let meta = FileMeta::Known { regular: true, len: content.len() as u64 };
            (filesize(meta), path.to_string())
        })
        .collect();
    let diags = p.supply_sizes(size_outcomes);
    assert!(diags.is_empty());
    while let Some(group) = p.take_request() {
        let hash_outcomes: Vec<(Outcome<Digest>, String)> = group
            .into_iter()
            .map(|path| {
                let content = tree
                    .iter()
                    .find(|(t, _)| *t == path)
                    .map(|(_, c)| *c)
                    .unwrap();
                (Outcome::Found(checksum(content.as_bytes())), path)
            })
            .collect();
        let diags = p.supply_hashes(hash_outcomes);
        assert!(diags.is_empty());
    }
    p.finish()
}

const TREE: [(&str, &str); 5] = [
    ("d1/f1", ""),
    ("d1/f2", ""),
    ("d1/d2/f3", "a\nbc2"),
    ("d1/d2/d3/f4", "abcde"),
    ("d1/d2/d3/d4/f5", "a\nbc2"),
];

#[test]
fn fdup() {
    // the two duplicate groups: the empty files, and the two files whose
    // content is "a\nbc2"; f4 shares its size with them but not its
    // content, and lands in no group
    let mut results = run_pipeline(false, &TREE);
    for group in results.iter_mut() {
        group.sort();
    }
    results.sort();
    let mut expected = vec![
        vec!["d1/f1".to_string(), "d1/f2".to_string()],
        vec!["d1/d2/d3/d4/f5".to_string(), "d1/d2/f3".to_string()],
    ];
    expected.sort();
    assert_eq!(expected, results);
}

#[test]
fn fdup_sorted_members() {
    // with the sort option each group's members come lexicographically
    let results = run_pipeline(true, &TREE);
    assert_eq!(2, results.len());
    for group in &results {
        for pair in group.windows(2) {
            assert!(pair[0] <= pair[1]);
        }
    }
    assert!(results.contains(&vec!["d1/f1".to_string(), "d1/f2".to_string()]));
    assert!(results.contains(&vec![
        "d1/d2/d3/d4/f5".to_string(),
        "d1/d2/f3".to_string()
    ]));
}

#[test]
fn pipeline_idempotent() {
    // an unmodified tree, walked the same way, yields the same groups
    let first = run_pipeline(true, &TREE);
    let second = run_pipeline(true, &TREE);
    assert_eq!(first, second);
    let first_unsorted = run_pipeline(false, &TREE);
    let second_unsorted = run_pipeline(false, &TREE);
    assert_eq!(first_unsorted, second_unsorted);
}

#[test]
fn pipeline_reenumeration() {
    // walking the same tree in another order reports the same groups,
    // up to the order of members and of groups
    let mut shuffled = TREE;
    shuffled.reverse();
    let mut first = run_pipeline(false, &TREE);
    let mut second = run_pipeline(false, &shuffled);
    for group in first.iter_mut().chain(second.iter_mut()) {
        group.sort();
    }
    first.sort();
    second.sort();
    assert_eq!(first, second);
}

#[test]
fn pipeline_error_isolation() {
    // one unreadable file among three identical ones leaves the group of
    // the other two intact
    let mut p = Pipeline::new(false);
    let size_outcomes: Vec<(Outcome<u64>, String)> = vec![
        (Outcome::Found(4), "x/a".to_string()),
        (Outcome::Found(4), "x/b".to_string()),
        (Outcome::Found(4), "x/c".to_string()),
    ];
    let diags = p.supply_sizes(size_outcomes);
    assert!(diags.is_empty());
    let group = p.take_request().unwrap();
    assert_eq!(group.len(), 3);
    let hash_outcomes: Vec<(Outcome<Digest>, String)> = group
        .into_iter()
        .map(|path| {
            if path == "x/b" {
                (Outcome::Fail("io error".to_string()), path)
            } else {
                (Outcome::Found(checksum(b"same")), path)
            }
        })
        .collect();
    let diags = p.supply_hashes(hash_outcomes);
    assert_eq!(diags, vec![("x/b".to_string(), "io error".to_string())]);
    assert!(p.take_request().is_none());
    let results = p.finish();
    assert_eq!(results, vec![vec!["x/a".to_string(), "x/c".to_string()]]);
}

#[test]
fn pipeline_size_filter_cascades() {
    // files of unique size never reach the hash stage
    let mut p = Pipeline::new(false);
    let size_outcomes: Vec<(Outcome<u64>, String)> = vec![
        (Outcome::Found(1), "one".to_string()),
        (Outcome::Found(2), "two".to_string()),
    ];
    let diags = p.supply_sizes(size_outcomes);
    assert!(diags.is_empty());
    assert!(p.take_request().is_none());
    assert!(p.finish().is_empty());
}
