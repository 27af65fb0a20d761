//! Tests of the content hashing layer, run against the real SHA-512
//! implementation.

use fdup::grouping::Key;
use fdup::hashing::Hasher;
use fdup::hashing::checksum;

fn test_data() -> Vec<String> {
    vec![
        "",
        "12asdopjkzx",
        " 12p oka0sd k\n rn12w\r\r\n \t asof AWSDJO !@# @$ ",
    ]
    .into_iter()
    .map(String::from)
    .collect()
}

fn hex_to_bytes(hex: &str) -> Vec<u8> {
    let chars: Vec<char> = hex.chars().collect();
    let mut out = Vec::new();
    for pair in chars.chunks(2) {
        let s: String = pair.iter().collect();
        out.push(u8::from_str_radix(&s, 16).unwrap());
    }
    out
}

#[test]
fn parametrized_checksum() {
    // hashing the same content repeatedly yields one digest; distinct
    // contents yield distinct digests
    let mut firsts: Vec<Vec<u8>> = Vec::new();
    for content in test_data() {
        let mut sums: Vec<Vec<u8>> = (0..4)
            .map(|_| checksum(content.as_bytes()).as_bytes().clone())
            .collect();
        sums.dedup();
        assert_eq!(1, sums.len());
        firsts.push(sums.pop().unwrap());
    }
    let expected = firsts.len();
    firsts.sort();
    firsts.dedup();
    assert_eq!(expected, firsts.len());
}

#[test]
fn empty_content_digest_is_fixed() {
    // the well-known SHA-512 digest of empty input
    let expected = hex_to_bytes(
        "cf83e1357eefb8bdf1542850d66d8007d620e4050b5715dc83f4a921d36ce9ce\
         47d0d13c5d85f2b0ff8318d2877eec2f63b931bd47417a81a538327af927da3e",
    );
    assert_eq!(expected.len(), 64);
    let d1 = checksum(b"");
    let d2 = checksum(b"");
    assert_eq!(d1.as_bytes(), &expected);
    assert_eq!(d1.as_bytes(), d2.as_bytes());
}

#[test]
fn streaming_equals_whole() {
    // feeding the content in pieces gives the digest of the whole
    let mut h = Hasher::new();
    h.update(b"a\nb");
    h.update(b"c2");
    let streamed = h.finalize();
    let whole = checksum(b"a\nbc2");
    assert_eq!(streamed.as_bytes(), whole.as_bytes());
}

#[test]
fn chunked_large_content() {
    // content longer than one read buffer is chunked internally
    let big: Vec<u8> = (0..200_000u32).map(|i| (i % 251) as u8).collect();
    let mut h = Hasher::new();
    h.update(&big);
    let at_once = h.finalize();
    let chunked = checksum(&big);
    assert_eq!(at_once.as_bytes(), chunked.as_bytes());
}

#[test]
fn digest_key_equality() {
    let a = checksum(b"same");
    let b = checksum(b"same");
    let c = checksum(b"other");
    assert!(a.key_eq(&b));
    assert!(!a.key_eq(&c));
}
