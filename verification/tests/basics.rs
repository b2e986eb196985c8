//! Order, sorting and numbers.

use hdfs_s3_gateway::number::{hex_encode, numeral_text};
use hdfs_s3_gateway::sort::sort_by_key;
use hdfs_s3_gateway::listing::ListEntry;
use hdfs_s3_gateway::text::{ends_with, key_less, same_text, starts_with};

#[test]
fn keys_sort_by_their_bytes() {
    assert!(key_less("a.txt", "a/b"));
    assert!(key_less("a/b", "a0"));
    assert!(key_less("a", "aa"));
    assert!(key_less("\u{e000}", "\u{10000}"));
    assert!(!key_less("a", "a"));
    assert!(!key_less("b", "a"));
}

#[test]
fn affixes() {
    assert!(starts_with("abc", ""));
    assert!(starts_with("abc", "ab"));
    assert!(!starts_with("abc", "abcd"));
    assert!(ends_with("abc", "bc"));
    assert!(ends_with("abc", ""));
    assert!(!ends_with("abc", "ab"));
    assert!(same_text("\u{e9}", "\u{e9}"));
    assert!(!same_text("a", "b"));
}

#[test]
fn sorting_is_stable() {
    let entry = |key: &str, size: u64| ListEntry {
        key: key.into(),
        size,
        modification_time: 0,
    };
    let sorted = sort_by_key(vec![
        entry("b", 1),
        entry("a", 2),
        entry("b", 3),
        entry("a", 4),
        entry("", 5),
    ]);
    let sizes: Vec<u64> = sorted.iter().map(|e| e.size).collect();
    assert_eq!(sizes, vec![5, 2, 4, 1, 3]);
}

#[test]
fn numbers_in_any_base() {
    assert_eq!(numeral_text(0, 10), "0");
    assert_eq!(numeral_text(u128::MAX, 16), "ffffffffffffffffffffffffffffffff");
    assert_eq!(numeral_text(35, 36), "z");
    assert_eq!(numeral_text(6, 2), "110");
    assert_eq!(hex_encode(&[0xde, 0xad]), "dead");
}
