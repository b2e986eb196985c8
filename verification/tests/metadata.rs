//! Metadata of objects.

use hdfs_s3_gateway::metadata::{fallback_etag, ObjectMetadata};

fn meta(checksum: Option<Vec<u8>>) -> ObjectMetadata {
    ObjectMetadata::from_hdfs(
        "/data/a/b.txt".into(),
        1024,
        false,
        1_700_000_000_000,
        checksum,
    )
}

#[test]
fn etag_from_checksum() {
    let m = meta(Some(vec![0xde, 0xad, 0xbe, 0xef]));
    assert_eq!(m.etag(), "deadbeef");
}

#[test]
fn etag_fallback_when_no_checksum() {
    let _m = meta(None);
    let e = _m.etag();
    assert!(e.starts_with("hdfs-"));
}

#[test]
fn fallback_etag_matches_head_and_listing() {
    // The listing path and the head/get path must produce identical ETags for the
    // same object, otherwise a client that caches the listing ETag and later HEADs
    // the key sees a spurious mismatch.
    let m = meta(None);
    let head_etag = m.etag();
    let list_etag = fallback_etag(m.length, m.modification_time);
    assert_eq!(head_etag, list_etag);
    assert_eq!(head_etag, "hdfs-400-18bcfe56800");
}

#[test]
fn content_type_parquet() {
    let _m = meta(None);
    let m = ObjectMetadata::from_hdfs("/data/x.parquet".into(), 1, false, 0, None);
    assert_eq!(m.content_type(), "application/vnd.apache.parquet");
}

#[test]
fn content_type_unknown_falls_back() {
    let m = ObjectMetadata::from_hdfs("/data/x.unknownext".into(), 1, false, 0, None);
    assert_eq!(m.content_type(), "application/octet-stream");
}

#[test]
fn hex_of_a_checksum() {
    assert_eq!(meta(Some(vec![])).etag(), "");
    assert_eq!(meta(Some(vec![0x00, 0x0f, 0xff])).etag(), "000fff");
}

#[test]
fn fallback_etags_are_exact_and_tell_objects_apart() {
    assert_eq!(fallback_etag(0, 0), "hdfs-0-0");
    assert_eq!(fallback_etag(u64::MAX, 16), "hdfs-ffffffffffffffff-10");
    assert_ne!(fallback_etag(1, 0x11), fallback_etag(0x11, 1));
}

#[test]
fn content_types_by_extension() {
    let ct = |path: &str| {
        ObjectMetadata::from_hdfs(path.into(), 1, false, 0, None).content_type()
    };
    assert_eq!(ct("/data/a.txt"), "text/plain");
    assert_eq!(ct("/data/A.JSON"), "application/json");
    assert_eq!(ct("/data/x.tar.gz"), "application/gzip");
    assert_eq!(ct("/data/.txt"), "application/octet-stream");
    assert_eq!(ct("/data/.a.txt"), "text/plain");
    assert_eq!(ct("/data/noext"), "application/octet-stream");
    assert_eq!(ct("/data.txt/noext"), "application/octet-stream");
    assert_eq!(ct("/data/a."), "application/octet-stream");
    assert_eq!(ct("/data/.."), "application/octet-stream");
    assert_eq!(ct(""), "application/octet-stream");
}

#[test]
fn a_guess_is_passed_on() {
    use_guess(Some("text/html"), "text/html");
    use_guess(None, "application/octet-stream");
}

fn use_guess(guess: Option<&str>, expected: &str) {
    let got = hdfs_s3_gateway::metadata::content_type_from(guess.map(|g| g.to_string()));
    assert_eq!(got, expected);
}
