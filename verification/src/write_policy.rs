//! The policy for operations that a read-only gateway does not perform.

use crate::error::{S3Error, S3ErrorCode};
use vstd::prelude::*;

verus! {

/// The uniform error returned for every write-shaped operation.
///
/// `AccessDenied` with a message about the read-only mode tells an operator exactly why the
/// write failed, and it is a code that clients already understand.
pub fn write_denied() -> (e: S3Error)
    ensures
        e.code == S3ErrorCode::AccessDenied,
        e.message matches Some(m) && m@
            == "this gateway is read-only; write operations are not supported"@,
        e.source is None,
        e.request_id is None,
{
    S3Error::with_message(
        S3ErrorCode::AccessDenied,
        "this gateway is read-only; write operations are not supported".to_string(),
    )
}

/// Every write is refused as a denial of access that says why.
pub proof fn law_writes_are_denied(e: S3Error)
    requires
        call_ensures(write_denied, (), e),
    ensures
        e.code == S3ErrorCode::AccessDenied,
        e.message matches Some(m) && m@
            == "this gateway is read-only; write operations are not supported"@,
        e.source is None && e.request_id is None,
{
}

} // verus!
