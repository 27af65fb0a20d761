//! Tests of the lexicographic path sort.

use fdup::sorting::lex_le_exec;
use fdup::sorting::sort_paths;

#[test]
fn lex_order_basic() {
    assert!(lex_le_exec("", ""));
    assert!(lex_le_exec("", "a"));
    assert!(!lex_le_exec("a", ""));
    assert!(lex_le_exec("abc", "abd"));
    assert!(!lex_le_exec("abd", "abc"));
    assert!(lex_le_exec("ab", "abc"));
    assert!(!lex_le_exec("abc", "ab"));
    assert!(lex_le_exec("d1/d2/d3/d4/f5", "d1/d2/f3"));
}

#[test]
fn sort_paths_orders_lexicographically() {
    let v = vec![
        "d1/f2".to_string(),
        "d1/d2/f3".to_string(),
        "d1/f1".to_string(),
    ];
    let sorted = sort_paths(v);
    assert_eq!(
        sorted,
        vec![
            "d1/d2/f3".to_string(),
            "d1/f1".to_string(),
            "d1/f2".to_string(),
        ]
    );
}

#[test]
fn sort_paths_keeps_duplicates() {
    let v = vec!["b".to_string(), "a".to_string(), "b".to_string()];
    let sorted = sort_paths(v);
    assert_eq!(
        sorted,
        vec!["a".to_string(), "b".to_string(), "b".to_string()]
    );
}
