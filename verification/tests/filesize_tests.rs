//! Tests of the size key extractor's classification rule.

use fdup::grouping::Outcome;
use fdup::keys::FileMeta;
use fdup::keys::filesize;

fn test_data() -> Vec<String> {
    vec![
        "",
        "12asdopjkzx",
        " 12p oka0sd k\n rn12w\r\r\n \t asof AWSDJO !@# @$ ",
    ]
    .into_iter()
    .map(String::from)
    .collect()
}

#[test]
fn parametrized_filesize() {
    // a regular file's size key is its byte length
    for content in test_data() {
        let expected = content.len() as u64;
        let meta = FileMeta::Known { regular: true, len: expected };
        let result = filesize(meta);
        assert_eq!(result, Outcome::Found(expected));
    }
}

#[test]
fn filesize_skips_other_entries() {
    let meta = FileMeta::Known { regular: false, len: 4096 };
    assert_eq!(filesize(meta), Outcome::Skip);
}

#[test]
fn filesize_reports_unreadable_entries() {
    let meta = FileMeta::Unreadable { message: "permission denied".to_string() };
    assert_eq!(
        filesize(meta),
        Outcome::Fail("permission denied".to_string())
    );
}
