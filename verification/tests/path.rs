//! Mapping between keys and paths.

use std::collections::HashMap;

use hdfs_s3_gateway::config::Config;
use hdfs_s3_gateway::path::{normalize_abs, PathMapper};

fn mapper() -> PathMapper {
    let config = Config {
        namenode_uri: "hdfs://localhost:8020".into(),
        hdfs_root: "/data".into(),
        bucket_name: "hdfs".into(),
        listen_addr: "0.0.0.0:8080".into(),
        max_concurrent_requests: 2048,
        expose_upstream_errors: false,
        hdfs_options: HashMap::new(),
        hdfs_config_dir: None,
        hdfs_user: None,
        auth_secret: None,
    };
    PathMapper::new(&config)
}

/// Mapper with `hdfs_root = "/"`.
fn root_mapper() -> PathMapper {
    let config = Config {
        namenode_uri: "hdfs://localhost:8020".into(),
        hdfs_root: "/".into(),
        bucket_name: "hdfs".into(),
        listen_addr: "0.0.0.0:8080".into(),
        max_concurrent_requests: 2048,
        expose_upstream_errors: false,
        hdfs_options: HashMap::new(),
        hdfs_config_dir: None,
        hdfs_user: None,
        auth_secret: None,
    };
    PathMapper::new(&config)
}

#[test]
fn simple_key() {
    let m = mapper();
    assert_eq!(
        m.key_to_hdfs_path("a/b/c.txt"),
        Some("/data/a/b/c.txt".into())
    );
}

#[test]
fn leading_slash_normalized() {
    let m = mapper();
    assert_eq!(m.key_to_hdfs_path("/a/b.txt"), Some("/data/a/b.txt".into()));
}

#[test]
fn trailing_slash_normalized() {
    let m = mapper();
    assert_eq!(m.key_to_hdfs_path("a/"), Some("/data/a".into()));
}

#[test]
fn empty_key_rejected() {
    let m = mapper();
    assert_eq!(m.key_to_hdfs_path(""), None);
    assert_eq!(m.key_to_hdfs_path("/"), None);
}

#[test]
fn path_traversal_rejected() {
    let m = mapper();
    // Decoded keys (s3s decodes %2F -> '/' before we see them).
    assert_eq!(m.key_to_hdfs_path("../../etc/passwd"), None);
    assert_eq!(m.key_to_hdfs_path("a/../../etc/passwd"), None);
    // A literal '%2F' (not decoded) is a filename, not a separator, and stays
    // under root — safe, never escapes.
    assert!(m.key_to_hdfs_path("..%2F..%2Fetc%2Fpasswd").is_some());
}

#[test]
fn non_ascii_key() {
    let m = mapper();
    // Non-ASCII keys are allowed; they map directly.
    assert_eq!(
        m.key_to_hdfs_path("café/naïve.txt"),
        Some("/data/café/naïve.txt".into())
    );
}

#[test]
fn round_trip() {
    let m = mapper();
    let key = "foo/bar/baz.parquet";
    let p = m.key_to_hdfs_path(key).unwrap();
    assert_eq!(m.hdfs_path_to_key(&p), Some(key.into()));
}

#[test]
fn hdfs_path_to_key_root() {
    let m = mapper();
    assert_eq!(m.hdfs_path_to_key("/data"), Some(String::new()));
}

#[test]
fn hdfs_path_outside_root() {
    let m = mapper();
    assert_eq!(m.hdfs_path_to_key("/etc/passwd"), None);
}

// --- hdfs_root = "/" ---

#[test]
fn root_slash_maps_deep_key() {
    // No empty first segment may come from joining the root and the key.
    let m = root_mapper();
    assert_eq!(
        m.key_to_hdfs_path("appdata/foo/bar.parquet"),
        Some("/appdata/foo/bar.parquet".into())
    );
}

#[test]
fn root_slash_maps_with_leading_slash_key() {
    let m = root_mapper();
    assert_eq!(
        m.key_to_hdfs_path("/appdata/foo"),
        Some("/appdata/foo".into())
    );
}

#[test]
fn root_slash_collapses_dot_components() {
    let m = root_mapper();
    assert_eq!(m.key_to_hdfs_path("a/./b.txt"), Some("/a/b.txt".into()));
    assert_eq!(m.key_to_hdfs_path("a/../b.txt"), Some("/b.txt".into()));
}

#[test]
fn root_slash_rejects_traversal() {
    let m = root_mapper();
    assert_eq!(m.key_to_hdfs_path("../etc/passwd"), None);
    assert_eq!(m.key_to_hdfs_path("a/../../etc/passwd"), None);
    assert_eq!(m.key_to_hdfs_path("/.."), None);
}

#[test]
fn root_slash_rejects_empty_key() {
    let m = root_mapper();
    assert_eq!(m.key_to_hdfs_path(""), None);
    assert_eq!(m.key_to_hdfs_path("/"), None);
    assert_eq!(m.key_to_hdfs_path("///"), None);
}

#[test]
fn root_slash_round_trip() {
    let m = root_mapper();
    let key = "appdata/foo/bar.parquet";
    let p = m.key_to_hdfs_path(key).unwrap();
    assert_eq!(p, "/appdata/foo/bar.parquet");
    assert_eq!(m.hdfs_path_to_key(&p), Some(key.into()));
}

#[test]
fn root_slash_hdfs_path_to_key() {
    let m = root_mapper();
    assert_eq!(m.hdfs_path_to_key("/"), Some(String::new()));
    assert_eq!(m.hdfs_path_to_key("/data/x.txt"), Some("data/x.txt".into()));
    // Relative paths are never under the absolute root.
    assert_eq!(m.hdfs_path_to_key("data/x.txt"), None);
}

#[test]
fn root_slash_normalizes_root() {
    let m = root_mapper();
    assert_eq!(m.root(), "/");
}

// --- normalize_abs is the same on every platform ---

#[test]
fn double_slash_prefix_normalized() {
    // A leading `//` is an absolute path with an empty first segment.
    assert_eq!(normalize_abs("//a/b"), Some("/a/b".into()));
    assert_eq!(normalize_abs("///a//b/"), Some("/a/b".into()));
    assert_eq!(normalize_abs("//"), Some("/".into()));
}

#[test]
fn backslash_is_literal_filename_char() {
    // Backslash must never act as a separator: HDFS paths are POSIX-shaped and
    // this normalizer is platform-independent. A backslash-shaped segment cannot
    // escape the root (only '/' separates), mirroring the %2F literal policy.
    assert_eq!(
        normalize_abs("/data/a\\..\\b"),
        Some("/data/a\\..\\b".into())
    );
    let m = mapper();
    assert!(m.key_to_hdfs_path("a\\..\\b").is_some());
    assert!(m.key_to_hdfs_path("..\\..\\etc").is_some());
}

#[test]
fn normalize_abs_absolute_forms() {
    assert_eq!(normalize_abs("/a/b"), Some("/a/b".into()));
    assert_eq!(normalize_abs("/a/./b"), Some("/a/b".into()));
    assert_eq!(normalize_abs("/a/b/"), Some("/a/b".into()));
    assert_eq!(normalize_abs("/"), Some("/".into()));
    // `..` must not escape past the root of an absolute path.
    assert_eq!(normalize_abs("/.."), None);
    assert_eq!(normalize_abs("/a/.."), Some("/".into()));
    assert_eq!(normalize_abs("/a/../.."), None);
}

#[test]
fn normalize_abs_relative_forms() {
    assert_eq!(normalize_abs("a/b"), Some("a/b".into()));
    assert_eq!(normalize_abs("../a"), Some("a".into()));
    assert_eq!(normalize_abs("a/.."), Some(String::new()));
    assert_eq!(normalize_abs("a/../b"), Some("b".into()));
    assert_eq!(normalize_abs(""), Some(String::new()));
}

// --- list_start ---

#[test]
fn list_start_is_the_directory_part() {
    let m = mapper();
    assert_eq!(m.list_start(""), Some("/data".into()));
    assert_eq!(m.list_start("a"), Some("/data".into()));
    assert_eq!(m.list_start("a/"), Some("/data/a".into()));
    assert_eq!(m.list_start("a/b"), Some("/data/a".into()));
    assert_eq!(m.list_start("a/b/c"), Some("/data/a/b".into()));
    assert_eq!(root_mapper().list_start("a/b"), Some("/a".into()));
}

#[test]
fn list_start_outside_the_root_is_none() {
    let m = mapper();
    assert_eq!(m.list_start("../x"), None);
    assert_eq!(m.list_start("a/../../x"), None);
    assert_eq!(root_mapper().list_start("../x"), None);
}

#[test]
fn configured_roots_are_normalized() {
    let rooted = |root: &str| {
        let config = Config {
            hdfs_root: root.into(),
            ..Config::default()
        };
        PathMapper::new(&config).root().to_string()
    };
    assert_eq!(rooted("/data/"), "/data");
    assert_eq!(rooted("data//x/./y"), "/data/x/y");
    assert_eq!(rooted("/.."), "/");
    assert_eq!(mapper().bucket(), "hdfs");
}

#[test]
fn resolved_keys_stay_under_the_root_and_resolve_again() {
    let m = mapper();
    for key in ["a", "a//b", "a/./b/", "x/../y", "é/ü"] {
        let path = m.key_to_hdfs_path(key).unwrap();
        assert!(path.starts_with("/data/"));
        let back = m.hdfs_path_to_key(&path).unwrap();
        assert_eq!(m.key_to_hdfs_path(&back), Some(path.clone()));
        assert_eq!(normalize_abs(&path), Some(path));
    }
}

#[test]
fn siblings_of_the_root_are_outside() {
    let m = mapper();
    assert_eq!(m.hdfs_path_to_key("/database/x"), None);
    assert_eq!(m.key_to_hdfs_path("../database/x"), None);
    assert_eq!(m.key_to_hdfs_path("../data/x"), Some("/data/x".into()));
    assert_eq!(m.key_to_hdfs_path("a/.."), Some("/data".into()));
}
