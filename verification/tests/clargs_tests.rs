//! Tests of the command surface options.

use fdup::clargs::Opt;

#[test]
fn opt_carries_both_options() {
    let o = Opt::new(true, "/some/root".to_string());
    assert!(o.sort_vec);
    assert_eq!(o.root, "/some/root");
    let o2 = Opt { sort_vec: false, root: "d1".to_string() };
    assert!(!o2.sort_vec);
    assert_eq!(o2.root, "d1");
}
