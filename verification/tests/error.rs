//! Upstream failures and the S3 errors they are reported as.

use hdfs_s3_gateway::error::{
    is_access_denied, is_dir_denied, is_unavailable, map_hdfs_error, HdfsError, HdfsErrorKind,
    S3ErrorCode,
};

/// The failure of the HDFS client, as the library takes it.
fn taken(err: hdfs_native::HdfsError) -> HdfsError {
    let text = err.to_string();
    let kind = match err {
        hdfs_native::HdfsError::IOError(_) => HdfsErrorKind::IOError,
        hdfs_native::HdfsError::DataTransferError(_) => HdfsErrorKind::DataTransferError,
        hdfs_native::HdfsError::ChecksumError => HdfsErrorKind::ChecksumError,
        hdfs_native::HdfsError::InvalidPath(_) => HdfsErrorKind::InvalidPath,
        hdfs_native::HdfsError::InvalidArgument(_) => HdfsErrorKind::InvalidArgument,
        hdfs_native::HdfsError::FileNotFound(_) => HdfsErrorKind::FileNotFound,
        hdfs_native::HdfsError::IsADirectoryError(_) => HdfsErrorKind::IsADirectoryError,
        hdfs_native::HdfsError::UnsupportedFeature(_) => HdfsErrorKind::UnsupportedFeature,
        hdfs_native::HdfsError::UnsupportedErasureCodingPolicy(_) => {
            HdfsErrorKind::UnsupportedErasureCodingPolicy
        }
        hdfs_native::HdfsError::SASLError(_) => HdfsErrorKind::SASLError,
        hdfs_native::HdfsError::NoSASLMechanism => HdfsErrorKind::NoSASLMechanism,
        hdfs_native::HdfsError::RPCError(exception, _) => HdfsErrorKind::RPCError(exception),
        hdfs_native::HdfsError::FatalRPCError(exception, _) => {
            HdfsErrorKind::FatalRPCError(exception)
        }
        other => panic!("not used here: {other}"),
    };
    HdfsError { kind, text }
}

#[test]
fn map_hdfs_error_variants() {
    // Not-found family collapses to NoSuchKey regardless of the expose flag.
    assert_eq!(
        map_hdfs_error(taken(hdfs_native::HdfsError::FileNotFound("x".into())), false).code(),
        S3ErrorCode::NoSuchKey
    );
    assert_eq!(
        map_hdfs_error(taken(hdfs_native::HdfsError::IsADirectoryError("x".into())), false).code(),
        S3ErrorCode::NoSuchKey
    );
    assert_eq!(
        map_hdfs_error(taken(hdfs_native::HdfsError::InvalidPath("x".into())), false).code(),
        S3ErrorCode::NoSuchKey
    );

    // InvalidArgument maps to InvalidArgument.
    assert_eq!(
        map_hdfs_error(taken(hdfs_native::HdfsError::InvalidArgument("bad".into())), false).code(),
        S3ErrorCode::InvalidArgument
    );

    // Unsupported HDFS features map to NotImplemented (read-only subset).
    assert_eq!(
        map_hdfs_error(taken(hdfs_native::HdfsError::UnsupportedFeature("ec".into())), false).code(),
        S3ErrorCode::NotImplemented
    );
    assert_eq!(
        map_hdfs_error(
            taken(hdfs_native::HdfsError::UnsupportedErasureCodingPolicy("ec".into())),
            false
        )
        .code(),
        S3ErrorCode::NotImplemented
    );

    // Everything else collapses to InternalError (no HDFS internals leaked by default).
    assert_eq!(
        map_hdfs_error(taken(hdfs_native::HdfsError::IOError(std::io::Error::other("boom"))), false).code(),
        S3ErrorCode::InternalError
    );
    assert_eq!(
        map_hdfs_error(taken(hdfs_native::HdfsError::RPCError("c".into(), "m".into())), false).code(),
        S3ErrorCode::InternalError
    );
    assert_eq!(
        map_hdfs_error(taken(hdfs_native::HdfsError::DataTransferError("d".into())), false).code(),
        S3ErrorCode::InternalError
    );
    assert_eq!(
        map_hdfs_error(taken(hdfs_native::HdfsError::ChecksumError), false).code(),
        S3ErrorCode::InternalError
    );
}

#[test]
fn map_hdfs_error_permission_denial_to_access_denied() {
    // Enterprise-Hadoop case: the NameNode rejects the request for lack of rights.
    // hdfs-native surfaces this as an RPCError whose first field is the fully-qualified
    // Java exception class. It must map to AccessDenied (403), NOT InternalError (500).
    let cases = [
        "org.apache.hadoop.security.AccessControlException",
        "org.apache.hadoop.fs.permission.AccessControlException",
        "org.apache.hadoop.security.authorize.AuthorizationException",
        "org.apache.hadoop.security.AccessDeniedException",
    ];
    for ex in cases {
        assert_eq!(
            map_hdfs_error(taken(hdfs_native::HdfsError::RPCError(ex.into(), "denied".into())), false).code(),
            S3ErrorCode::AccessDenied,
            "expected AccessDenied for {ex}"
        );
        // FatalRPCError must behave identically.
        assert_eq!(
            map_hdfs_error(taken(hdfs_native::HdfsError::FatalRPCError(ex.into(), "denied".into())), false).code(),
            S3ErrorCode::AccessDenied,
            "expected AccessDenied for fatal {ex}"
        );
    }

    // SASL/GSSAPI auth failures are also access problems → AccessDenied.
    assert_eq!(
        map_hdfs_error(taken(hdfs_native::HdfsError::SASLError("no mechanism".into())), false).code(),
        S3ErrorCode::AccessDenied
    );
    assert_eq!(
        map_hdfs_error(taken(hdfs_native::HdfsError::NoSASLMechanism), false).code(),
        S3ErrorCode::AccessDenied
    );
}

#[test]
fn map_hdfs_error_standby_safemode_to_service_unavailable() {
    // A NameNode in standby / safe mode is temporarily unable to serve → 503, so clients
    // back off and retry rather than treating it as a permanent gateway fault.
    for ex in [
        "org.apache.hadoop.ipc.StandbyException",
        "org.apache.hadoop.hdfs.server.namenode.SafeModeException",
    ] {
        assert_eq!(
            map_hdfs_error(taken(hdfs_native::HdfsError::RPCError(ex.into(), "not active".into())), false).code(),
            S3ErrorCode::ServiceUnavailable,
            "expected ServiceUnavailable for {ex}"
        );
    }
}

#[test]
fn map_hdfs_error_unknown_rpc_still_internal() {
    // An RPC error we don't specifically recognize must remain InternalError (safe default;
    // we never invent a client-facing code for an unknown upstream condition).
    assert_eq!(
        map_hdfs_error(
            taken(hdfs_native::HdfsError::RPCError("java.io.IOException".into(), "boom".into())),
            false
        )
        .code(),
        S3ErrorCode::InternalError
    );
}

#[test]
fn map_hdfs_error_expose_flag() {
    let hidden = map_hdfs_error(
        taken(hdfs_native::HdfsError::IOError(std::io::Error::other("secret host info"))),
        false,
    );
    // Default off: no upstream text in the client-facing message.
    assert!(
        hidden.message().is_none(),
        "upstream text must NOT be exposed by default"
    );

    let exposed = map_hdfs_error(
        taken(hdfs_native::HdfsError::IOError(std::io::Error::other("secret host info"))),
        true,
    );
    // Enabled: the HDFS error text becomes the message (the IOError Display adds a prefix,
    // so we assert the secret substring is present rather than an exact match).
    assert!(
        exposed
            .message()
            .is_some_and(|m| m.contains("secret host info")),
        "upstream text must be exposed when the flag is on; got {:?}",
        exposed.message()
    );
}

#[test]
fn every_other_kind_is_an_internal_error() {
    for kind in [
        HdfsErrorKind::UrlParseError,
        HdfsErrorKind::AlreadyExists,
        HdfsErrorKind::OperationFailed,
        HdfsErrorKind::BlocksNotFound,
        HdfsErrorKind::TrashNotEnabled,
        HdfsErrorKind::ErasureCodingError,
        HdfsErrorKind::InternalError,
        HdfsErrorKind::InvalidRPCResponse,
        HdfsErrorKind::XmlParseError,
    ] {
        let err = HdfsError {
            kind,
            text: "detail".into(),
        };
        let e = map_hdfs_error(err.clone(), true);
        assert_eq!(e.code(), S3ErrorCode::InternalError);
        assert_eq!(e.message(), Some("detail"));
        assert_eq!(e.source, Some(err));
    }
}

#[test]
fn not_found_says_nothing_of_the_upstream() {
    let e = map_hdfs_error(
        HdfsError {
            kind: HdfsErrorKind::FileNotFound,
            text: "/secret/path".into(),
        },
        true,
    );
    assert_eq!(e.message(), None);
    assert_eq!(e.source, None);
}

#[test]
fn exception_classes_are_matched_by_their_end() {
    assert!(is_access_denied("x.y.PermissionDeniedException"));
    assert!(is_access_denied("PermissionDenied"));
    assert!(!is_access_denied("AccessControlExceptionX"));
    assert!(!is_access_denied(""));
    assert!(is_unavailable("a.SafeModeException"));
    assert!(!is_unavailable("a.IOException"));
}

#[test]
fn only_access_exceptions_deny_a_directory() {
    let denied = |kind: HdfsErrorKind| {
        is_dir_denied(&HdfsError {
            kind,
            text: String::new(),
        })
    };
    assert!(denied(HdfsErrorKind::RPCError(
        "org.apache.hadoop.security.AccessControlException".into()
    )));
    assert!(denied(HdfsErrorKind::FatalRPCError(
        "org.apache.hadoop.security.AccessControlException".into()
    )));
    assert!(!denied(HdfsErrorKind::RPCError("java.io.IOException".into())));
    // Failing to authenticate concerns the whole cluster, not one directory.
    assert!(!denied(HdfsErrorKind::SASLError));
    assert!(!denied(HdfsErrorKind::GSSAPIError));
    assert!(!denied(HdfsErrorKind::FileNotFound));
}
