//! Upstream HDFS failures and the S3 errors they are reported as.

use crate::text::ends_with;
use vstd::prelude::*;

verus! {

/// The kinds of failure the HDFS client reports. The RPC failures carry the fully-qualified
/// Java class name of the upstream exception.
#[derive(Debug, Clone, PartialEq, Eq)]
pub enum HdfsErrorKind {
    IOError,
    DataTransferError,
    ChecksumError,
    InvalidPath,
    InvalidArgument,
    UrlParseError,
    AlreadyExists,
    OperationFailed,
    FileNotFound,
    BlocksNotFound,
    IsADirectoryError,
    TrashNotEnabled,
    UnsupportedErasureCodingPolicy,
    ErasureCodingError,
    UnsupportedFeature,
    InternalError,
    InvalidRPCResponse,
    RPCError(String),
    FatalRPCError(String),
    SASLError,
    GSSAPIError,
    NoSASLMechanism,
    XmlParseError,
}

/// A failure of the HDFS client: its kind and the text the client describes it with.
#[derive(Debug, Clone, PartialEq, Eq)]
pub struct HdfsError {
    pub kind: HdfsErrorKind,
    pub text: String,
}

/// The S3 error codes that the gateway answers with.
#[derive(Debug, Clone, Copy, PartialEq, Eq, Structural)]
pub enum S3ErrorCode {
    AccessDenied,
    InternalError,
    InvalidArgument,
    InvalidRange,
    InvalidToken,
    NoSuchBucket,
    NoSuchKey,
    NotImplemented,
    NotModified,
    PreconditionFailed,
    ServiceUnavailable,
    SlowDown,
}

/// An S3 error response.
#[derive(Debug, Clone, PartialEq, Eq)]
pub struct S3Error {
    /// The error code.
    pub code: S3ErrorCode,
    /// The message shown to the client; the code's own message when absent.
    pub message: Option<String>,
    /// The upstream failure behind the error, kept for the server's log.
    pub source: Option<HdfsError>,
    /// The id of the request that failed.
    pub request_id: Option<String>,
}

impl S3Error {
    /// An error with nothing but its code.
    pub fn new(code: S3ErrorCode) -> (e: Self)
        ensures
            e == (S3Error { code, message: None, source: None, request_id: None }),
    {
        S3Error { code, message: None, source: None, request_id: None }
    }

    /// An error with a message of its own.
    pub fn with_message(code: S3ErrorCode, message: String) -> (e: Self)
        ensures
            e == (S3Error { code, message: Some(message), source: None, request_id: None }),
    {
        S3Error { code, message: Some(message), source: None, request_id: None }
    }

    /// The error code.
    pub fn code(&self) -> (c: S3ErrorCode)
        ensures
            c == self.code,
    {
        self.code
    }

    /// The message shown to the client, if it is not the code's own.
    pub fn message(&self) -> (m: Option<&str>)
        ensures
            m is Some <==> self.message is Some,
            m matches Some(s) ==> s@ == self.message->0@,
    {
        match &self.message {
            Some(s) => Some(s.as_str()),
            None => None,
        }
    }
}

/// Java exception classes that deny access.
pub open spec fn names_access_denial(exception: Seq<char>) -> bool {
    ||| "AccessControlException"@.is_suffix_of(exception)
    ||| "AuthorizationException"@.is_suffix_of(exception)
    ||| "AccessDeniedException"@.is_suffix_of(exception)
    ||| "PermissionDeniedException"@.is_suffix_of(exception)
    ||| "PermissionDenied"@.is_suffix_of(exception)
}

/// Java exception classes of a cluster that cannot serve for the moment.
pub open spec fn names_unavailability(exception: Seq<char>) -> bool {
    ||| "StandbyException"@.is_suffix_of(exception)
    ||| "SafeModeException"@.is_suffix_of(exception)
}

/// Whether an exception class denotes an authorization or permission denial.
pub fn is_access_denied(exception: &str) -> (r: bool)
    ensures
        r == names_access_denial(exception@),
{
    ends_with(exception, "AccessControlException") || ends_with(
        exception,
        "AuthorizationException",
    ) || ends_with(exception, "AccessDeniedException") || ends_with(
        exception,
        "PermissionDeniedException",
    ) || ends_with(exception, "PermissionDenied")
}

/// Whether an exception class denotes a NameNode in standby or safe mode.
pub fn is_unavailable(exception: &str) -> (r: bool)
    ensures
        r == names_unavailability(exception@),
{
    ends_with(exception, "StandbyException") || ends_with(exception, "SafeModeException")
}

/// The S3 code a failure is reported with.
pub open spec fn code_of(kind: HdfsErrorKind) -> S3ErrorCode {
    match kind {
        HdfsErrorKind::FileNotFound
        | HdfsErrorKind::IsADirectoryError
        | HdfsErrorKind::InvalidPath => S3ErrorCode::NoSuchKey,
        HdfsErrorKind::InvalidArgument => S3ErrorCode::InvalidArgument,
        HdfsErrorKind::UnsupportedFeature
        | HdfsErrorKind::UnsupportedErasureCodingPolicy => S3ErrorCode::NotImplemented,
        HdfsErrorKind::SASLError
        | HdfsErrorKind::GSSAPIError
        | HdfsErrorKind::NoSASLMechanism => S3ErrorCode::AccessDenied,
        HdfsErrorKind::RPCError(exception) | HdfsErrorKind::FatalRPCError(exception) => {
            if names_access_denial(exception@) {
                S3ErrorCode::AccessDenied
            } else if names_unavailability(exception@) {
                S3ErrorCode::ServiceUnavailable
            } else {
                S3ErrorCode::InternalError
            }
        },
        _ => S3ErrorCode::InternalError,
    }
}

/// The S3 error a failure becomes. The not-found family says nothing of the upstream; every
/// other error keeps the failure as its source and shows its text only if `expose` is set.
pub open spec fn s3_error_of(err: HdfsError, expose: bool) -> S3Error {
    let code = code_of(err.kind);
    if code == S3ErrorCode::NoSuchKey {
        S3Error { code, message: None, source: None, request_id: None }
    } else {
        S3Error {
            code,
            message: if expose {
                Some(err.text)
            } else {
                None
            },
            source: Some(err),
            request_id: None,
        }
    }
}

/// Map an HDFS failure to the S3 error it is reported as.
///
/// Codes are specific where S3 has a matching one and collapse to `InternalError` elsewhere.
/// An access-control exception is `AccessDenied` (403), not a gateway fault that clients
/// would retry; a standby or safe-mode NameNode is `ServiceUnavailable` (503), so that they
/// do.
pub fn map_hdfs_error(err: HdfsError, expose: bool) -> (e: S3Error)
    ensures
        e == s3_error_of(err, expose),
{
    let code = match &err.kind {
        HdfsErrorKind::FileNotFound
        | HdfsErrorKind::IsADirectoryError
        | HdfsErrorKind::InvalidPath => {
            return S3Error::new(S3ErrorCode::NoSuchKey);
        },
        HdfsErrorKind::InvalidArgument => S3ErrorCode::InvalidArgument,
        HdfsErrorKind::UnsupportedFeature
        | HdfsErrorKind::UnsupportedErasureCodingPolicy => S3ErrorCode::NotImplemented,
        HdfsErrorKind::SASLError
        | HdfsErrorKind::GSSAPIError
        | HdfsErrorKind::NoSASLMechanism => S3ErrorCode::AccessDenied,
        HdfsErrorKind::RPCError(exception) | HdfsErrorKind::FatalRPCError(exception) => {
            if is_access_denied(exception.as_str()) {
                S3ErrorCode::AccessDenied
            } else if is_unavailable(exception.as_str()) {
                S3ErrorCode::ServiceUnavailable
            } else {
                S3ErrorCode::InternalError
            }
        },
        _ => S3ErrorCode::InternalError,
    };
    let message = if expose {
        Some(err.text.clone())
    } else {
        None
    };
    S3Error { code, message, source: Some(err), request_id: None }
}

/// A directory that the gateway's HDFS user may not read.
pub open spec fn denies_directory(kind: HdfsErrorKind) -> bool {
    match kind {
        HdfsErrorKind::RPCError(exception)
        | HdfsErrorKind::FatalRPCError(exception) => names_access_denial(exception@),
        _ => false,
    }
}

/// Whether a failed listing means that this one directory may not be read. Authentication
/// failures do not count: they concern the whole cluster.
pub fn is_dir_denied(err: &HdfsError) -> (r: bool)
    ensures
        r == denies_directory(err.kind),
{
    match &err.kind {
        HdfsErrorKind::RPCError(exception) | HdfsErrorKind::FatalRPCError(exception) => {
            is_access_denied(exception.as_str())
        },
        _ => false,
    }
}

/// What the client learns of a failure does not depend on its text unless it is exposed.
pub proof fn law_upstream_text_hidden(a: HdfsError, b: HdfsError)
    requires
        a.kind == b.kind,
    ensures
        s3_error_of(a, false).code == s3_error_of(b, false).code,
        s3_error_of(a, false).message is None,
        s3_error_of(b, false).message is None,
{
}

/// The code of each kind of failure, whatever its text and whether or not the text is exposed.
/// What is not there is `NoSuchKey`; a failure to authenticate is `AccessDenied`, no gateway
/// fault that clients would retry; what the gateway cannot do is `NotImplemented`; the rest is
/// `InternalError`.
pub proof fn law_failure_codes(err: HdfsError, expose: bool, e: S3Error)
    requires
        call_ensures(map_hdfs_error, (err, expose), e),
    ensures
        err.kind is FileNotFound ==> e.code == S3ErrorCode::NoSuchKey,
        err.kind is IsADirectoryError ==> e.code == S3ErrorCode::NoSuchKey,
        err.kind is InvalidPath ==> e.code == S3ErrorCode::NoSuchKey,
        err.kind is SASLError ==> e.code == S3ErrorCode::AccessDenied,
        err.kind is GSSAPIError ==> e.code == S3ErrorCode::AccessDenied,
        err.kind is NoSASLMechanism ==> e.code == S3ErrorCode::AccessDenied,
        err.kind is InvalidArgument ==> e.code == S3ErrorCode::InvalidArgument,
        err.kind is UnsupportedFeature ==> e.code == S3ErrorCode::NotImplemented,
        err.kind is UnsupportedErasureCodingPolicy ==> e.code == S3ErrorCode::NotImplemented,
        err.kind is IOError ==> e.code == S3ErrorCode::InternalError,
        err.kind is DataTransferError ==> e.code == S3ErrorCode::InternalError,
        err.kind is ChecksumError ==> e.code == S3ErrorCode::InternalError,
        err.kind is UrlParseError ==> e.code == S3ErrorCode::InternalError,
        err.kind is AlreadyExists ==> e.code == S3ErrorCode::InternalError,
        err.kind is OperationFailed ==> e.code == S3ErrorCode::InternalError,
        err.kind is BlocksNotFound ==> e.code == S3ErrorCode::InternalError,
        err.kind is TrashNotEnabled ==> e.code == S3ErrorCode::InternalError,
        err.kind is ErasureCodingError ==> e.code == S3ErrorCode::InternalError,
        err.kind is InternalError ==> e.code == S3ErrorCode::InternalError,
        err.kind is InvalidRPCResponse ==> e.code == S3ErrorCode::InternalError,
        err.kind is XmlParseError ==> e.code == S3ErrorCode::InternalError,
{
}

/// The code of a remote exception goes by its class, in whatever package, and not by whether the
/// connection survived it: a denial of access is `AccessDenied`, a NameNode in standby or safe
/// mode is `ServiceUnavailable`, and any other exception is `InternalError`.
pub proof fn law_remote_exception_codes(
    err: HdfsError,
    expose: bool,
    e: S3Error,
    exception: String,
)
    requires
        call_ensures(map_hdfs_error, (err, expose), e),
        err.kind == HdfsErrorKind::RPCError(exception) || err.kind
            == HdfsErrorKind::FatalRPCError(exception),
    ensures
        "AccessControlException"@.is_suffix_of(exception@) ==> e.code == S3ErrorCode::AccessDenied,
        "AuthorizationException"@.is_suffix_of(exception@) ==> e.code == S3ErrorCode::AccessDenied,
        "AccessDeniedException"@.is_suffix_of(exception@) ==> e.code == S3ErrorCode::AccessDenied,
        "PermissionDeniedException"@.is_suffix_of(exception@) ==> e.code
            == S3ErrorCode::AccessDenied,
        "PermissionDenied"@.is_suffix_of(exception@) ==> e.code == S3ErrorCode::AccessDenied,
        "StandbyException"@.is_suffix_of(exception@) ==> e.code == S3ErrorCode::ServiceUnavailable,
        "SafeModeException"@.is_suffix_of(exception@) ==> e.code
            == S3ErrorCode::ServiceUnavailable,
        e.code == S3ErrorCode::AccessDenied ==> {
            ||| "AccessControlException"@.is_suffix_of(exception@)
            ||| "AuthorizationException"@.is_suffix_of(exception@)
            ||| "AccessDeniedException"@.is_suffix_of(exception@)
            ||| "PermissionDeniedException"@.is_suffix_of(exception@)
            ||| "PermissionDenied"@.is_suffix_of(exception@)
        },
        e.code == S3ErrorCode::ServiceUnavailable ==> {
            ||| "StandbyException"@.is_suffix_of(exception@)
            ||| "SafeModeException"@.is_suffix_of(exception@)
        },
        e.code == S3ErrorCode::AccessDenied || e.code == S3ErrorCode::ServiceUnavailable || e.code
            == S3ErrorCode::InternalError,
{
    lemma_denial_is_not_unavailability(exception@);
}

/// What a string ends in ends alike.
proof fn lemma_suffix_char(end: Seq<char>, s: Seq<char>, k: int)
    requires
        end.is_suffix_of(s),
        1 <= k <= end.len(),
    ensures
        s[s.len() - k] == end[end.len() - k],
{
    assert(s.subrange(s.len() - end.len(), s.len() as int)[end.len() - k] == s[s.len() - k]);
}

/// No class name denies access and tells of unavailability at once.
proof fn lemma_denial_is_not_unavailability(exception: Seq<char>)
    ensures
        !(names_access_denial(exception) && names_unavailability(exception)),
{
    reveal_strlit("AccessControlException");
    reveal_strlit("AuthorizationException");
    reveal_strlit("AccessDeniedException");
    reveal_strlit("PermissionDeniedException");
    reveal_strlit("PermissionDenied");
    reveal_strlit("StandbyException");
    reveal_strlit("SafeModeException");
    if names_access_denial(exception) && names_unavailability(exception) {
        // The last letter tells `PermissionDenied` apart, the last before `Exception` the others.
        if "StandbyException"@.is_suffix_of(exception) {
            lemma_suffix_char("StandbyException"@, exception, 1);
            lemma_suffix_char("StandbyException"@, exception, 10);
        } else {
            lemma_suffix_char("SafeModeException"@, exception, 1);
            lemma_suffix_char("SafeModeException"@, exception, 10);
        }
        if "AccessControlException"@.is_suffix_of(exception) {
            lemma_suffix_char("AccessControlException"@, exception, 10);
        } else if "AuthorizationException"@.is_suffix_of(exception) {
            lemma_suffix_char("AuthorizationException"@, exception, 10);
        } else if "AccessDeniedException"@.is_suffix_of(exception) {
            lemma_suffix_char("AccessDeniedException"@, exception, 10);
        } else if "PermissionDeniedException"@.is_suffix_of(exception) {
            lemma_suffix_char("PermissionDeniedException"@, exception, 10);
        } else {
            lemma_suffix_char("PermissionDenied"@, exception, 1);
        }
    }
}

/// What a client sees of a failure besides its code, and what is kept for the log. The client
/// sees the text of the upstream just when it is exposed, and never of what is not there; the
/// failure itself stays with the error.
pub proof fn law_failure_texts(err: HdfsError, expose: bool, e: S3Error)
    requires
        call_ensures(map_hdfs_error, (err, expose), e),
    ensures
        e.request_id is None,
        e.code == S3ErrorCode::NoSuchKey ==> e.message is None && e.source is None,
        e.code != S3ErrorCode::NoSuchKey ==> e.source == Some(err),
        e.code != S3ErrorCode::NoSuchKey && expose ==> e.message == Some(err.text),
        !expose ==> e.message is None,
{
}

/// Exposing the text of an upstream changes nothing but the message.
pub proof fn law_exposure_only_adds_text(err: HdfsError, shown: S3Error, hidden: S3Error)
    requires
        call_ensures(map_hdfs_error, (err, true), shown),
        call_ensures(map_hdfs_error, (err, false), hidden),
    ensures
        shown.code == hidden.code,
        shown.source == hidden.source,
        shown.request_id == hidden.request_id,
{
}

/// A directory that may not be read is one whose listing was denied by the NameNode. A failure
/// to authenticate, or any other, is not that, though it may be reported alike.
pub proof fn law_directory_denial(err: &HdfsError, denied: bool, e: S3Error)
    requires
        call_ensures(is_dir_denied, (err,), denied),
        call_ensures(map_hdfs_error, (*err, false), e),
    ensures
        err.kind is RPCError || err.kind is FatalRPCError ==> (denied <==> e.code
            == S3ErrorCode::AccessDenied),
        !(err.kind is RPCError || err.kind is FatalRPCError) ==> !denied,
{
}

/// Which classes deny access, and which tell of a NameNode that cannot serve for the moment.
pub proof fn law_exception_classes(exception: &str, denied: bool, unavailable: bool)
    requires
        call_ensures(is_access_denied, (exception,), denied),
        call_ensures(is_unavailable, (exception,), unavailable),
    ensures
        denied <==> {
            ||| "AccessControlException"@.is_suffix_of(exception@)
            ||| "AuthorizationException"@.is_suffix_of(exception@)
            ||| "AccessDeniedException"@.is_suffix_of(exception@)
            ||| "PermissionDeniedException"@.is_suffix_of(exception@)
            ||| "PermissionDenied"@.is_suffix_of(exception@)
        },
        unavailable <==> {
            ||| "StandbyException"@.is_suffix_of(exception@)
            ||| "SafeModeException"@.is_suffix_of(exception@)
        },
        !(denied && unavailable),
{
    lemma_denial_is_not_unavailability(exception@);
}

/// An error keeps what it is made with, and nothing else.
pub proof fn law_error_keeps_its_parts(
    code: S3ErrorCode,
    message: String,
    plain: S3Error,
    told: S3Error,
    read: S3ErrorCode,
    shown: Option<&str>,
)
    requires
        call_ensures(S3Error::new, (code,), plain),
        call_ensures(S3Error::with_message, (code, message), told),
        call_ensures(S3Error::code, (&told,), read),
        call_ensures(S3Error::message, (&told,), shown),
    ensures
        plain.code == code,
        plain.message is None,
        plain.source is None && told.source is None,
        plain.request_id is None && told.request_id is None,
        told.code == code,
        told.message == Some(message),
        read == code,
        shown matches Some(s) && s@ == message@,
{
}

} // verus!
