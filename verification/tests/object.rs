//! Requests for one object.

use hdfs_s3_gateway::config::Config;
use hdfs_s3_gateway::error::{HdfsError, HdfsErrorKind, S3ErrorCode};
use hdfs_s3_gateway::object::{
    fmt_content_range, head_bucket, head_object, locate_object,
    millis_to_nanos, millis_to_timestamp, plan_read, Conditions, ETag, ETagCondition, ReadPlan,
};
use hdfs_s3_gateway::path::PathMapper;
use hdfs_s3_gateway::range::ByteRange;
use hdfs_s3_gateway::sorted_listing::FileStatus;

fn mapper() -> PathMapper {
    let config = Config {
        hdfs_root: "/data".into(),
        bucket_name: "hdfs".into(),
        ..Config::default()
    };
    PathMapper::new(&config)
}

fn status() -> FileStatus {
    FileStatus {
        path: "/data/a/b.txt".into(),
        length: 1024,
        isdir: false,
        modification_time: 1_700_000_000_500,
    }
}

fn unconditional() -> Conditions {
    Conditions {
        if_match: None,
        if_unmodified_since: None,
        if_none_match: None,
        if_modified_since: None,
    }
}

fn strong(tag: &str) -> Option<ETagCondition> {
    Some(ETagCondition::ETag(ETag::Strong(tag.into())))
}

fn weak(tag: &str) -> Option<ETagCondition> {
    Some(ETagCondition::ETag(ETag::Weak(tag.into())))
}

const TAG: &str = "hdfs-400-18bcfe569f4";
const TIME: i128 = 1_700_000_000_500_000_000;

fn answer(conditions: &Conditions) -> Result<(), S3ErrorCode> {
    head_object(Ok(status()), false, conditions)
        .map(|_| ())
        .map_err(|e| e.code())
}

#[test]
fn objects_are_located_in_their_bucket() {
    let m = mapper();
    assert_eq!(locate_object(&m, "hdfs", "a/b"), Ok("/data/a/b".into()));
    assert_eq!(
        locate_object(&m, "other", "a/b"),
        Err(S3ErrorCode::NoSuchBucket)
    );
    assert_eq!(
        locate_object(&m, "other", "../x"),
        Err(S3ErrorCode::NoSuchBucket)
    );
    assert_eq!(
        locate_object(&m, "hdfs", "../x"),
        Err(S3ErrorCode::NoSuchKey)
    );
    assert_eq!(locate_object(&m, "hdfs", ""), Err(S3ErrorCode::NoSuchKey));
    assert_eq!(head_bucket(&m, "hdfs"), Ok(()));
    assert_eq!(head_bucket(&m, "hdfs2"), Err(S3ErrorCode::NoSuchBucket));
}

#[test]
fn a_file_is_described() {
    let info = head_object(Ok(status()), false, &unconditional()).unwrap();
    assert_eq!(info.accept_ranges, "bytes");
    assert_eq!(info.content_length, 1024);
    assert_eq!(info.content_type, "text/plain");
    assert_eq!(info.last_modified, 1_700_000_000_500);
    assert_eq!(info.e_tag, ETag::Strong(TAG.into()));
}

#[test]
fn a_directory_is_no_object() {
    let dir = FileStatus {
        isdir: true,
        ..status()
    };
    let e = head_object(Ok(dir), true, &unconditional()).unwrap_err();
    assert_eq!(e.code(), S3ErrorCode::NoSuchKey);
    assert_eq!(e.message(), None);
}

#[test]
fn an_upstream_failure_is_mapped() {
    let failed = || HdfsError {
        kind: HdfsErrorKind::IOError,
        text: "boom".into(),
    };
    let e = head_object(Err(failed()), true, &unconditional()).unwrap_err();
    assert_eq!(e.code(), S3ErrorCode::InternalError);
    assert_eq!(e.message(), Some("boom"));
    let e = head_object(Err(failed()), false, &unconditional()).unwrap_err();
    assert_eq!(e.message(), None);
}

#[test]
fn if_match_compares_strongly() {
    let c = |if_match| Conditions {
        if_match,
        ..unconditional()
    };
    assert_eq!(answer(&c(strong(TAG))), Ok(()));
    assert_eq!(answer(&c(Some(ETagCondition::Any))), Ok(()));
    assert_eq!(
        answer(&c(strong("other"))),
        Err(S3ErrorCode::PreconditionFailed)
    );
    assert_eq!(answer(&c(weak(TAG))), Err(S3ErrorCode::PreconditionFailed));
}

#[test]
fn if_none_match_compares_weakly() {
    let c = |if_none_match| Conditions {
        if_none_match,
        ..unconditional()
    };
    assert_eq!(answer(&c(strong("other"))), Ok(()));
    assert_eq!(answer(&c(strong(TAG))), Err(S3ErrorCode::NotModified));
    assert_eq!(answer(&c(weak(TAG))), Err(S3ErrorCode::NotModified));
    assert_eq!(
        answer(&c(Some(ETagCondition::Any))),
        Err(S3ErrorCode::NotModified)
    );
}

#[test]
fn times_are_compared_to_the_nanosecond() {
    let unmodified = |t| Conditions {
        if_unmodified_since: Some(t),
        ..unconditional()
    };
    assert_eq!(answer(&unmodified(TIME)), Ok(()));
    assert_eq!(
        answer(&unmodified(TIME - 1)),
        Err(S3ErrorCode::PreconditionFailed)
    );
    let modified = |t| Conditions {
        if_modified_since: Some(t),
        ..unconditional()
    };
    assert_eq!(answer(&modified(TIME)), Err(S3ErrorCode::NotModified));
    assert_eq!(answer(&modified(TIME - 1)), Ok(()));
}

#[test]
fn failed_preconditions_come_first() {
    let c = Conditions {
        if_match: strong("other"),
        if_unmodified_since: None,
        if_none_match: strong(TAG),
        if_modified_since: Some(TIME),
    };
    assert_eq!(answer(&c), Err(S3ErrorCode::PreconditionFailed));
}

#[test]
fn revalidation_notices_a_change() {
    let seen = head_object(Ok(status()), false, &unconditional()).unwrap();
    let c = Conditions {
        if_none_match: strong(seen.e_tag.value()),
        ..unconditional()
    };
    assert_eq!(answer(&c), Err(S3ErrorCode::NotModified));
    let changed = FileStatus {
        modification_time: 1_700_000_000_501,
        ..status()
    };
    assert!(head_object(Ok(changed), false, &c).is_ok());
}

#[test]
fn reads_are_planned() {
    assert_eq!(
        plan_read(100, None),
        Ok(ReadPlan {
            window_start: 0,
            window_end: 100,
            content_length: 100,
            content_range: None,
        })
    );
    assert_eq!(
        plan_read(0, None),
        Ok(ReadPlan {
            window_start: 0,
            window_end: 0,
            content_length: 0,
            content_range: None,
        })
    );
    assert_eq!(
        plan_read(100, Some(ByteRange::Inclusive { first: 10, last: 19 })),
        Ok(ReadPlan {
            window_start: 10,
            window_end: 20,
            content_length: 10,
            content_range: Some("bytes 10-19/100".into()),
        })
    );
    assert_eq!(
        plan_read(100, Some(ByteRange::Suffix { length: 500 })),
        Ok(ReadPlan {
            window_start: 0,
            window_end: 100,
            content_length: 100,
            content_range: Some("bytes 0-99/100".into()),
        })
    );
    assert_eq!(
        plan_read(100, Some(ByteRange::From { first: 100 })),
        Err(S3ErrorCode::InvalidRange)
    );
}

#[test]
fn a_suffix_of_an_empty_file_is_an_empty_read() {
    assert_eq!(
        plan_read(0, Some(ByteRange::Suffix { length: 10 })),
        Ok(ReadPlan {
            window_start: 0,
            window_end: 0,
            content_length: 0,
            content_range: None,
        })
    );
    assert_eq!(
        plan_read(0, Some(ByteRange::Suffix { length: 0 })),
        Err(S3ErrorCode::InvalidRange)
    );
    assert_eq!(
        plan_read(0, Some(ByteRange::From { first: 0 })),
        Err(S3ErrorCode::InvalidRange)
    );
}

#[test]
fn content_ranges_are_exact() {
    assert_eq!(fmt_content_range(0, 0, 1), "bytes 0-0/1");
    assert_eq!(
        fmt_content_range(0, u64::MAX - 1, u64::MAX),
        "bytes 0-18446744073709551614/18446744073709551615"
    );
}

#[test]
fn modification_times_convert() {
    assert_eq!(millis_to_timestamp(1_234), (1, 234_000_000));
    assert_eq!(millis_to_nanos(1_234), 1_234_000_000);
    assert_eq!(
        millis_to_timestamp(u64::MAX),
        (18_446_744_073_709_551, 615_000_000)
    );
}
