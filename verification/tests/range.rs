//! Byte ranges.

use hdfs_s3_gateway::range::{resolve_range, ByteRange};

#[test]
fn from_full_file() {
    // bytes=0- on a 100-byte file → whole file
    assert_eq!(
        resolve_range(100, ByteRange::From { first: 0 }),
        Some((0, 100))
    );
}

#[test]
fn from_middle() {
    // bytes=10- on a 100-byte file → 10..100
    assert_eq!(
        resolve_range(100, ByteRange::From { first: 10 }),
        Some((10, 100))
    );
}

#[test]
fn from_past_eof_unsatisfiable() {
    // bytes=100- on a 100-byte file → unsatisfiable
    assert_eq!(resolve_range(100, ByteRange::From { first: 100 }), None);
}

#[test]
fn inclusive_exact() {
    // bytes=0-99 on a 100-byte file → 0..100
    assert_eq!(
        resolve_range(100, ByteRange::Inclusive { first: 0, last: 99 }),
        Some((0, 100))
    );
}

#[test]
fn inclusive_clamped_to_eof() {
    // bytes=50-999 on a 100-byte file → clamped to 50..100
    assert_eq!(
        resolve_range(
            100,
            ByteRange::Inclusive {
                first: 50,
                last: 999
            }
        ),
        Some((50, 100))
    );
}

#[test]
fn inclusive_first_past_eof_unsatisfiable() {
    assert_eq!(
        resolve_range(
            100,
            ByteRange::Inclusive {
                first: 100,
                last: 200
            }
        ),
        None
    );
}

#[test]
fn inclusive_inverted_unsatisfiable() {
    // first > last after clamping
    assert_eq!(
        resolve_range(
            100,
            ByteRange::Inclusive {
                first: 90,
                last: 80
            }
        ),
        None
    );
}

#[test]
fn suffix_exact() {
    // bytes=-50 on a 100-byte file → 50..100
    assert_eq!(
        resolve_range(100, ByteRange::Suffix { length: 50 }),
        Some((50, 100))
    );
}

#[test]
fn suffix_longer_than_file() {
    // bytes=-500 on a 100-byte file → whole file
    assert_eq!(
        resolve_range(100, ByteRange::Suffix { length: 500 }),
        Some((0, 100))
    );
}

#[test]
fn suffix_zero_unsatisfiable() {
    assert_eq!(resolve_range(100, ByteRange::Suffix { length: 0 }), None);
}

#[test]
fn suffix_on_empty_file_is_empty_window() {
    // An empty file yields a zero-length window (0..0), not an error.
    assert_eq!(
        resolve_range(0, ByteRange::Suffix { length: 10 }),
        Some((0, 0))
    );
}
