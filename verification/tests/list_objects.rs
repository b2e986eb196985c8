//! `ListObjectsV2` requests and responses.

use hdfs_s3_gateway::config::Config;
use hdfs_s3_gateway::error::{HdfsError, HdfsErrorKind, S3ErrorCode};
use hdfs_s3_gateway::list_objects::{
    delimited_page, flat_page, list_output, plan_list, split_statuses, ListRequest,
};
use hdfs_s3_gateway::listing::ListEntry;
use hdfs_s3_gateway::metadata::fallback_etag;
use hdfs_s3_gateway::path::PathMapper;
use hdfs_s3_gateway::sorted_listing::FileStatus;
use hdfs_s3_gateway::token::encode_token;

fn mapper() -> PathMapper {
    let config = Config {
        hdfs_root: "/data".into(),
        bucket_name: "hdfs".into(),
        ..Config::default()
    };
    PathMapper::new(&config)
}

fn request() -> ListRequest {
    ListRequest {
        bucket: "hdfs".into(),
        prefix: None,
        delimiter: None,
        max_keys: None,
        continuation_token: None,
        start_after: None,
    }
}

fn status(path: &str, isdir: bool) -> FileStatus {
    FileStatus {
        path: path.into(),
        length: 3,
        isdir,
        modification_time: 9,
    }
}

fn entry(key: &str) -> ListEntry {
    ListEntry {
        key: key.into(),
        size: 3,
        modification_time: 9,
    }
}

#[test]
fn defaults_of_a_request() {
    let plan = plan_list(&mapper(), &request()).unwrap();
    assert_eq!(plan.prefix, "");
    assert_eq!(plan.delimiter, None);
    assert_eq!(plan.max_keys, 1000);
    assert_eq!(plan.start_after, None);
    assert_eq!(plan.start, Some("/data".into()));
}

#[test]
fn parameters_of_a_request() {
    let plan = plan_list(
        &mapper(),
        &ListRequest {
            prefix: Some("a/b".into()),
            delimiter: Some("/".into()),
            max_keys: Some(7),
            start_after: Some("a/b1".into()),
            ..request()
        },
    )
    .unwrap();
    assert_eq!(plan.prefix, "a/b");
    assert_eq!(plan.delimiter, Some("/".into()));
    assert_eq!(plan.max_keys, 7);
    assert_eq!(plan.start_after, Some("a/b1".into()));
    assert_eq!(plan.start, Some("/data/a".into()));
}

#[test]
fn an_empty_delimiter_is_none() {
    let plan = plan_list(
        &mapper(),
        &ListRequest {
            delimiter: Some(String::new()),
            ..request()
        },
    )
    .unwrap();
    assert_eq!(plan.delimiter, None);
}

#[test]
fn a_negative_limit_wraps() {
    let plan = plan_list(
        &mapper(),
        &ListRequest {
            max_keys: Some(-1),
            ..request()
        },
    )
    .unwrap();
    assert_eq!(plan.max_keys, -1i32 as usize);
    let plan = plan_list(
        &mapper(),
        &ListRequest {
            max_keys: Some(i32::MIN),
            ..request()
        },
    )
    .unwrap();
    assert_eq!(plan.max_keys, i32::MIN as usize);
}

#[test]
fn refused_requests() {
    let m = mapper();
    let r = plan_list(
        &m,
        &ListRequest {
            bucket: "other".into(),
            continuation_token: Some("%%%".into()),
            ..request()
        },
    );
    assert_eq!(r, Err(S3ErrorCode::NoSuchBucket));
    let r = plan_list(
        &m,
        &ListRequest {
            continuation_token: Some("%%%".into()),
            ..request()
        },
    );
    assert_eq!(r, Err(S3ErrorCode::InvalidToken));
}

#[test]
fn a_token_wins_over_start_after() {
    let plan = plan_list(
        &mapper(),
        &ListRequest {
            continuation_token: Some(encode_token("k")),
            start_after: Some("z".into()),
            ..request()
        },
    )
    .unwrap();
    assert_eq!(plan.start_after, Some("k".into()));
}

#[test]
fn statuses_are_split_by_key() {
    let (files, dirs) = split_statuses(
        &mapper(),
        vec![
            status("/data/x", false),
            status("/data", true),
            status("/data/d", true),
            status("/other/y", false),
        ],
    );
    assert_eq!(files, vec![entry("x")]);
    assert_eq!(dirs, vec!["d".to_string()]);
}

#[test]
fn a_delimited_page_from_one_directory() {
    let m = mapper();
    let plan = plan_list(
        &m,
        &ListRequest {
            delimiter: Some("/".into()),
            max_keys: Some(2),
            ..request()
        },
    )
    .unwrap();
    let page = delimited_page(
        &m,
        &plan,
        Ok(vec![
            status("/data/z", false),
            status("/data/d", true),
            status("/data/a", false),
        ]),
        false,
    )
    .unwrap();
    assert_eq!(page.contents, vec![entry("a")]);
    assert_eq!(page.common_prefixes, vec!["d/".to_string()]);
    assert!(page.is_truncated);
    assert_eq!(page.next_token, Some("d/".into()));
}

#[test]
fn a_missing_directory_is_an_empty_page() {
    let m = mapper();
    let plan = plan_list(
        &m,
        &ListRequest {
            delimiter: Some("/".into()),
            prefix: Some("no/such/".into()),
            ..request()
        },
    )
    .unwrap();
    let missing = HdfsError {
        kind: HdfsErrorKind::FileNotFound,
        text: "gone".into(),
    };
    let page = delimited_page(&m, &plan, Err(missing), false).unwrap();
    assert!(page.contents.is_empty() && page.common_prefixes.is_empty());
    assert!(!page.is_truncated);
    let failed = HdfsError {
        kind: HdfsErrorKind::IOError,
        text: "boom".into(),
    };
    let e = delimited_page(&m, &plan, Err(failed), true).unwrap_err();
    assert_eq!(e.code(), S3ErrorCode::InternalError);
    assert_eq!(e.message(), Some("boom"));
}

#[test]
fn a_prefix_outside_the_root_lists_nothing() {
    let m = mapper();
    let plan = plan_list(
        &m,
        &ListRequest {
            delimiter: Some("/".into()),
            prefix: Some("../x".into()),
            ..request()
        },
    )
    .unwrap();
    assert_eq!(plan.start, None);
    let page = delimited_page(&m, &plan, Ok(Vec::new()), false).unwrap();
    assert!(page.contents.is_empty() && page.common_prefixes.is_empty());
}

#[test]
fn a_flat_page_resumes_after_its_last_key() {
    let page = flat_page(vec![entry("a"), entry("b")], true);
    assert_eq!(page.next_token, Some("b".into()));
    assert!(flat_page(vec![entry("a")], false).next_token.is_none());
    assert!(flat_page(Vec::new(), true).next_token.is_none());
}

#[test]
fn a_response_and_the_request_that_resumes_it() {
    let m = mapper();
    let first = ListRequest {
        prefix: Some("a".into()),
        delimiter: Some(String::new()),
        max_keys: Some(2),
        ..request()
    };
    let out = list_output(&m, &first, flat_page(vec![entry("a1"), entry("a2")], true));
    assert_eq!(out.name, "hdfs");
    assert_eq!(out.prefix, Some("a".into()));
    assert_eq!(out.delimiter, Some(String::new()));
    assert_eq!(out.max_keys, 2);
    assert!(out.is_truncated);
    assert_eq!(out.key_count, 2);
    assert_eq!(out.common_prefixes, None);
    assert_eq!(out.continuation_token, None);
    let objects = out.contents.unwrap();
    assert_eq!(objects.len(), 2);
    assert_eq!(objects[1].key, "a2");
    assert_eq!(objects[1].size, 3);
    assert_eq!(objects[1].last_modified, 9);
    assert_eq!(objects[1].e_tag, fallback_etag(3, 9));
    let next = ListRequest {
        continuation_token: out.next_continuation_token,
        ..request()
    };
    let plan = plan_list(&m, &next).unwrap();
    assert_eq!(plan.start_after, Some("a2".into()));
}

#[test]
fn an_empty_response_leaves_lists_out() {
    let out = list_output(&mapper(), &request(), flat_page(Vec::new(), false));
    assert_eq!(out.contents, None);
    assert_eq!(out.common_prefixes, None);
    assert_eq!(out.next_continuation_token, None);
    assert_eq!(out.max_keys, 1000);
    assert_eq!(out.key_count, 0);
}

#[test]
fn one_level_groups_like_all_keys() {
    let m = mapper();
    let plan = plan_list(
        &m,
        &ListRequest {
            prefix: Some("a".into()),
            delimiter: Some("/".into()),
            ..request()
        },
    )
    .unwrap();
    // What lies directly under the start directory, and all keys below it.
    let level = vec![
        status("/data/a.txt", false),
        status("/data/a", true),
        status("/data/ab", true),
        status("/data/b", true),
    ];
    let page = delimited_page(&m, &plan, Ok(level), false).unwrap();
    let all = ["a.txt", "a/1", "a/2/3", "ab/x", "b/y"];
    let entries: Vec<ListEntry> = all.iter().map(|k| entry(k)).collect();
    let (contents, prefixes) =
        hdfs_s3_gateway::listing::list_to_contents(&entries, "a", Some("/"));
    assert_eq!(page.contents, contents);
    assert_eq!(page.common_prefixes, prefixes.into_vec());
    assert_eq!(page.common_prefixes, vec!["a/", "ab/"]);
}
