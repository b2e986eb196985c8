//! What a request for one object is answered: where the object is, whether its preconditions
//! hold, and which bytes to read.

use crate::error::{map_hdfs_error, s3_error_of, HdfsError, S3Error, S3ErrorCode};
use crate::metadata::{fallback_etag_of, type_or_default, ObjectMetadata};
use crate::number::{numeral, numeral_text};
use crate::path::{path_of_key, PathMapper};
use crate::range::{resolve_range, window, ByteRange};
use crate::sorted_listing::FileStatus;
use crate::text::same_text;
use vstd::prelude::*;

verus! {

// ---------------------------------------------------------------------------------------
// Times
// ---------------------------------------------------------------------------------------

/// A point in time, in nanoseconds since the Unix epoch.
pub open spec fn nanos_of(millis: u64) -> int {
    millis * 1_000_000
}

/// The point in time of an HDFS modification time (milliseconds since the Unix epoch).
pub fn millis_to_nanos(millis: u64) -> (n: i128)
    ensures
        n == nanos_of(millis),
{
    (millis as i128) * 1_000_000
}

/// Whole seconds and remaining nanoseconds of an HDFS modification time.
pub fn millis_to_timestamp(millis: u64) -> (t: (u64, u32))
    ensures
        t.1 < 1_000_000_000,
        t.0 * 1_000_000_000 + t.1 == nanos_of(millis),
{
    (millis / 1000, ((millis % 1000) * 1_000_000) as u32)
}

// ---------------------------------------------------------------------------------------
// Preconditions
// ---------------------------------------------------------------------------------------

/// An entity tag (RFC 9110 section 8.8.3).
#[derive(Debug, Clone, PartialEq, Eq)]
pub enum ETag {
    Strong(String),
    Weak(String),
}

impl ETag {
    /// The opaque tag.
    pub open spec fn tag(&self) -> Seq<char> {
        match self {
            ETag::Strong(s) => s@,
            ETag::Weak(s) => s@,
        }
    }

    /// The opaque tag.
    pub fn value(&self) -> (s: &str)
        ensures
            s@ == self.tag(),
    {
        match self {
            ETag::Strong(s) => s.as_str(),
            ETag::Weak(s) => s.as_str(),
        }
    }

    /// Strong comparison: both tags are strong and equal.
    pub fn strong_cmp(&self, other: &ETag) -> (r: bool)
        ensures
            r == (self is Strong && other is Strong && self.tag() == other.tag()),
    {
        match (self, other) {
            (ETag::Strong(a), ETag::Strong(b)) => same_text(a.as_str(), b.as_str()),
            _ => false,
        }
    }

    /// Weak comparison: the tags are equal, whether strong or weak.
    pub fn weak_cmp(&self, other: &ETag) -> (r: bool)
        ensures
            r == (self.tag() == other.tag()),
    {
        same_text(self.value(), other.value())
    }
}

/// The value of an `If-Match` or `If-None-Match` header.
#[derive(Debug, Clone, PartialEq, Eq)]
pub enum ETagCondition {
    /// A tag to compare with.
    ETag(ETag),
    /// `*`, which any existing object meets.
    Any,
}

/// The conditional headers of a request; times in nanoseconds since the Unix epoch.
#[derive(Debug, Clone, PartialEq, Eq)]
pub struct Conditions {
    pub if_match: Option<ETagCondition>,
    pub if_unmodified_since: Option<i128>,
    pub if_none_match: Option<ETagCondition>,
    pub if_modified_since: Option<i128>,
}

impl Conditions {
    /// `If-Match` holds: strong comparison.
    pub open spec fn matches_tag(&self, etag: ETag) -> bool {
        match self.if_match {
            Some(ETagCondition::ETag(other)) => etag is Strong && other is Strong && etag.tag()
                == other.tag(),
            _ => true,
        }
    }

    /// `If-None-Match` fails: weak comparison.
    pub open spec fn excludes_tag(&self, etag: ETag) -> bool {
        match self.if_none_match {
            Some(ETagCondition::ETag(other)) => etag.tag() == other.tag(),
            Some(ETagCondition::Any) => true,
            None => false,
        }
    }

    /// What the preconditions of a request answer it: `PreconditionFailed` if `If-Match` or
    /// `If-Unmodified-Since` does not hold, else `NotModified` if `If-None-Match` or
    /// `If-Modified-Since` does not hold.
    pub open spec fn verdict(&self, etag: ETag, modified: i128) -> Option<S3ErrorCode> {
        if !self.matches_tag(etag) || (self.if_unmodified_since matches Some(since) && modified
            > since) {
            Some(S3ErrorCode::PreconditionFailed)
        } else if self.excludes_tag(etag) || (self.if_modified_since matches Some(since) && modified
            <= since) {
            Some(S3ErrorCode::NotModified)
        } else {
            None
        }
    }

    /// Check the preconditions against the state of an object (RFC 9110 section 13).
    pub fn check(&self, etag: &ETag, modified: i128) -> (r: Option<S3ErrorCode>)
        ensures
            r == self.verdict(*etag, modified),
    {
        if let Some(cond) = &self.if_match {
            let matched = match cond {
                ETagCondition::Any => true,
                ETagCondition::ETag(other) => etag.strong_cmp(other),
            };
            if !matched {
                return Some(S3ErrorCode::PreconditionFailed);
            }
        }
        if let Some(since) = self.if_unmodified_since {
            if modified > since {
                return Some(S3ErrorCode::PreconditionFailed);
            }
        }
        if let Some(cond) = &self.if_none_match {
            let not_modified = match cond {
                ETagCondition::Any => true,
                ETagCondition::ETag(other) => etag.weak_cmp(other),
            };
            if not_modified {
                return Some(S3ErrorCode::NotModified);
            }
        }
        if let Some(since) = self.if_modified_since {
            if modified <= since {
                return Some(S3ErrorCode::NotModified);
            }
        }
        None
    }
}

// ---------------------------------------------------------------------------------------
// Finding the object
// ---------------------------------------------------------------------------------------

/// Whether the request is for the exposed bucket: `NoSuchBucket` for any other.
pub fn head_bucket(mapper: &PathMapper, bucket: &str) -> (r: Result<(), S3ErrorCode>)
    ensures
        r is Ok <==> bucket@ == mapper.bucket_view(),
        r matches Err(e) ==> e == S3ErrorCode::NoSuchBucket,
{
    if same_text(bucket, mapper.bucket()) {
        Ok(())
    } else {
        Err(S3ErrorCode::NoSuchBucket)
    }
}

/// The HDFS path of an object: `NoSuchBucket` outside the exposed bucket, `NoSuchKey` for a
/// key that names no place under the root.
pub fn locate_object(mapper: &PathMapper, bucket: &str, key: &str) -> (r: Result<
    String,
    S3ErrorCode,
>)
    ensures
        match r {
            Ok(path) => bucket@ == mapper.bucket_view() && path_of_key(mapper.root_view(), key@)
                == Some(path@),
            Err(e) => if bucket@ != mapper.bucket_view() {
                e == S3ErrorCode::NoSuchBucket
            } else {
                e == S3ErrorCode::NoSuchKey && path_of_key(mapper.root_view(), key@) is None
            },
        },
{
    if !same_text(bucket, mapper.bucket()) {
        return Err(S3ErrorCode::NoSuchBucket);
    }
    match mapper.key_to_hdfs_path(key) {
        Some(path) => Ok(path),
        None => Err(S3ErrorCode::NoSuchKey),
    }
}

/// What a response says of an object.
#[derive(Debug, PartialEq, Eq)]
pub struct ObjectInfo {
    /// The supported range unit, so that clients know they may ask for ranges.
    pub accept_ranges: String,
    /// The length of the whole object.
    pub content_length: u64,
    pub content_type: String,
    /// Last-modified time, milliseconds since the Unix epoch.
    pub last_modified: u64,
    pub e_tag: ETag,
}

/// The metadata of a file without a known checksum.
pub open spec fn metadata_of(s: FileStatus) -> ObjectMetadata {
    ObjectMetadata {
        path: s.path,
        length: s.length as u64,
        is_dir: s.isdir,
        modification_time: s.modification_time,
        checksum: None,
    }
}

/// `info` describes the file `s`.
pub open spec fn info_of(s: FileStatus, info: ObjectInfo) -> bool {
    &&& info.accept_ranges@ == "bytes"@
    &&& info.content_length == s.length
    &&& info.content_type@ == type_or_default(metadata_of(s).guess())
    &&& info.last_modified == s.modification_time
    &&& info.e_tag is Strong
    &&& info.e_tag.tag() == fallback_etag_of(s.length as u64, s.modification_time)
}

/// The answer of HDFS to where an object is, as the answer to the request.
///
/// Directories are never surfaced as objects. Preconditions are checked for both `HEAD` and
/// `GET`. `expose` tells whether the client may see upstream error texts.
pub fn head_object(
    status: Result<FileStatus, HdfsError>,
    expose: bool,
    conditions: &Conditions,
) -> (r: Result<ObjectInfo, S3Error>)
    ensures
        match status {
            Err(e) => r == Err::<ObjectInfo, S3Error>(s3_error_of(e, expose)),
            Ok(s) => if s.isdir {
                r matches Err(e) && e == (S3Error {
                    code: S3ErrorCode::NoSuchKey,
                    message: None,
                    source: None,
                    request_id: None,
                })
            } else {
                exists|info: ObjectInfo| #[trigger]
                    info_of(s, info) && match conditions.verdict(
                        info.e_tag,
                        nanos_of(s.modification_time) as i128,
                    ) {
                        Some(code) => r matches Err(e) && e == (S3Error {
                            code,
                            message: None,
                            source: None,
                            request_id: None,
                        }),
                        None => r == Ok::<ObjectInfo, S3Error>(info),
                    }
            },
        },
{
    let s = match status {
        Ok(s) => s,
        Err(e) => {
            return Err(map_hdfs_error(e, expose));
        },
    };
    if s.isdir {
        return Err(S3Error::new(S3ErrorCode::NoSuchKey));
    }
    let length = s.length as u64;
    let meta = ObjectMetadata::from_hdfs(s.path, length, s.isdir, s.modification_time, None);
    let info = ObjectInfo {
        accept_ranges: "bytes".to_string(),
        content_length: length,
        content_type: meta.content_type(),
        last_modified: s.modification_time,
        e_tag: ETag::Strong(meta.etag()),
    };
    assert(info_of(s, info));
    match conditions.check(&info.e_tag, millis_to_nanos(s.modification_time)) {
        Some(code) => Err(S3Error::new(code)),
        None => Ok(info),
    }
}

// ---------------------------------------------------------------------------------------
// Reading the object
// ---------------------------------------------------------------------------------------

/// The value of a `Content-Range` header.
pub open spec fn content_range_of(start: u64, end_inclusive: u64, size: u64) -> Seq<char> {
    "bytes "@ + numeral(start as nat, 10) + "-"@ + numeral(end_inclusive as nat, 10) + "/"@
        + numeral(size as nat, 10)
}

/// The value of a `Content-Range` header.
pub fn fmt_content_range(start: u64, end_inclusive: u64, size: u64) -> (s: String)
    ensures
        s@ == content_range_of(start, end_inclusive, size),
{
    let mut s = "bytes ".to_string();
    s.append(numeral_text(start as u128, 10).as_str());
    s.append("-");
    s.append(numeral_text(end_inclusive as u128, 10).as_str());
    s.append("/");
    s.append(numeral_text(size as u128, 10).as_str());
    s
}

/// Which bytes of a file to read, and how the response declares them.
#[derive(Debug, PartialEq, Eq)]
pub struct ReadPlan {
    /// The first byte to read.
    pub window_start: usize,
    /// Behind the last byte to read.
    pub window_end: usize,
    pub content_length: u64,
    /// The `Content-Range` header of a ranged response. There is none for a window without a
    /// byte, which the header cannot express.
    pub content_range: Option<String>,
}

/// The window to read: the whole file without a range.
pub open spec fn window_of(file_len: u64, range: Option<ByteRange>) -> Option<(u64, u64)> {
    match range {
        None => Some((0, file_len)),
        Some(r) => window(file_len, r),
    }
}

/// Plan the reading of a file of `file_len` bytes: `InvalidRange` if the range cannot be
/// satisfied, or if this machine cannot address the window. A suffix of an empty file is an
/// empty window, not an error.
pub fn plan_read(file_len: u64, range: Option<ByteRange>) -> (r: Result<ReadPlan, S3ErrorCode>)
    ensures
        match r {
            Ok(plan) => {
                &&& window_of(file_len, range) == Some(
                    (plan.window_start as u64, plan.window_end as u64),
                )
                &&& plan.window_start <= plan.window_end <= usize::MAX
                &&& plan.content_length == plan.window_end - plan.window_start
                &&& match plan.content_range {
                    Some(text) => range is Some && plan.content_length > 0 && text@
                        == content_range_of(
                        plan.window_start as u64,
                        (plan.window_end - 1) as u64,
                        file_len,
                    ),
                    None => range is None || plan.content_length == 0,
                }
            },
            Err(e) => e == S3ErrorCode::InvalidRange && (window_of(file_len, range) matches Some(
                w,
            ) ==> w.0 > usize::MAX || w.1 > usize::MAX),
        },
{
    let (start, end, content_range) = match range {
        None => (0u64, file_len, None),
        Some(asked) => match resolve_range(file_len, asked) {
            None => {
                return Err(S3ErrorCode::InvalidRange);
            },
            Some((s, e)) => {
                let text = if s < e {
                    Some(fmt_content_range(s, e - 1, file_len))
                } else {
                    None
                };
                (s, e, text)
            },
        },
    };
    if start > usize::MAX as u64 || end > usize::MAX as u64 {
        return Err(S3ErrorCode::InvalidRange);
    }
    Ok(
        ReadPlan {
            window_start: start as usize,
            window_end: end as usize,
            content_length: end - start,
            content_range,
        },
    )
}

/// `HEAD` and `GET` revalidation: a client that sends back the ETag it was given, and nothing
/// else, is told that the object is not modified exactly while neither length nor modification
/// time has changed.
pub proof fn law_revalidation(seen: FileStatus, now: FileStatus, info: ObjectInfo, c: Conditions)
    requires
        info_of(now, info),
        c.if_match is None,
        c.if_unmodified_since is None,
        c.if_modified_since is None,
        c.if_none_match matches Some(ETagCondition::ETag(tag)) && tag.tag() == fallback_etag_of(
            seen.length as u64,
            seen.modification_time,
        ),
    ensures
        c.verdict(info.e_tag, nanos_of(now.modification_time) as i128) == (if seen.length
            == now.length && seen.modification_time == now.modification_time {
            Some(S3ErrorCode::NotModified)
        } else {
            None
        }),
{
    if fallback_etag_of(seen.length as u64, seen.modification_time) == fallback_etag_of(
        now.length as u64,
        now.modification_time,
    ) {
        crate::metadata::law_fallback_etag_distinguishes(
            seen.length as u64,
            seen.modification_time,
            now.length as u64,
            now.modification_time,
        );
    }
}

// ---------------------------------------------------------------------------------------
// Laws
// ---------------------------------------------------------------------------------------

/// The same instant, whichever way a modification time is converted.
pub proof fn law_times_agree(millis: u64, nanos: i128, stamp: (u64, u32))
    requires
        call_ensures(millis_to_nanos, (millis,), nanos),
        call_ensures(millis_to_timestamp, (millis,), stamp),
    ensures
        nanos == 1_000_000 * millis,
        stamp.0 * 1_000_000_000 + stamp.1 == nanos,
        stamp.0 * 1000 <= millis < stamp.0 * 1000 + 1000,
{
}

/// Comparing tags: strongly, two tags are the same if both are strong and read alike; weakly,
/// if they read alike.
pub proof fn law_tag_comparison(a: &ETag, b: &ETag, strong: bool, weak: bool, text: &str)
    requires
        call_ensures(ETag::strong_cmp, (a, b), strong),
        call_ensures(ETag::weak_cmp, (a, b), weak),
        call_ensures(ETag::value, (a,), text),
    ensures
        match (*a, *b) {
            (ETag::Strong(x), ETag::Strong(y)) => strong == (x@ == y@) && weak == (x@ == y@),
            (ETag::Strong(x), ETag::Weak(y)) => !strong && weak == (x@ == y@),
            (ETag::Weak(x), ETag::Strong(y)) => !strong && weak == (x@ == y@),
            (ETag::Weak(x), ETag::Weak(y)) => !strong && weak == (x@ == y@),
        },
        match *a {
            ETag::Strong(x) => text@ == x@,
            ETag::Weak(x) => text@ == x@,
        },
{
}

/// Without conditional headers nothing stands in the way of a response.
pub proof fn law_no_conditions(
    c: &Conditions,
    etag: &ETag,
    modified: i128,
    r: Option<S3ErrorCode>,
)
    requires
        call_ensures(Conditions::check, (c, etag, modified), r),
        c.if_match is None,
        c.if_unmodified_since is None,
        c.if_none_match is None,
        c.if_modified_since is None,
    ensures
        r is None,
{
}

/// `If-Modified-Since` alone: `NotModified` for every time at or after the modification,
/// success for every earlier one.
pub proof fn law_if_modified_since(
    c: &Conditions,
    etag: &ETag,
    modified: i128,
    since: i128,
    r: Option<S3ErrorCode>,
)
    requires
        call_ensures(Conditions::check, (c, etag, modified), r),
        c.if_match is None,
        c.if_unmodified_since is None,
        c.if_none_match is None,
        c.if_modified_since == Some(since),
    ensures
        since >= modified ==> r == Some(S3ErrorCode::NotModified),
        since < modified ==> r is None,
{
}

/// `If-Unmodified-Since` alone: `PreconditionFailed` for every time before the modification,
/// success for every other.
pub proof fn law_if_unmodified_since(
    c: &Conditions,
    etag: &ETag,
    modified: i128,
    since: i128,
    r: Option<S3ErrorCode>,
)
    requires
        call_ensures(Conditions::check, (c, etag, modified), r),
        c.if_match is None,
        c.if_unmodified_since == Some(since),
        c.if_none_match is None,
        c.if_modified_since is None,
    ensures
        since < modified ==> r == Some(S3ErrorCode::PreconditionFailed),
        since >= modified ==> r is None,
{
}

/// `If-Match` alone: it holds for `*`, and for a strong tag that reads like the object's strong
/// tag. Otherwise the answer is `PreconditionFailed`.
pub proof fn law_if_match(
    c: &Conditions,
    etag: &ETag,
    modified: i128,
    wanted: ETagCondition,
    r: Option<S3ErrorCode>,
)
    requires
        call_ensures(Conditions::check, (c, etag, modified), r),
        c.if_match == Some(wanted),
        c.if_unmodified_since is None,
        c.if_none_match is None,
        c.if_modified_since is None,
    ensures
        r is None || r == Some(S3ErrorCode::PreconditionFailed),
        match (wanted, *etag) {
            (ETagCondition::Any, _) => r is None,
            (ETagCondition::ETag(ETag::Strong(w)), ETag::Strong(t)) => r is None <==> w@ == t@,
            (ETagCondition::ETag(ETag::Weak(_)), _) => r is Some,
            (_, ETag::Weak(_)) => r is Some,
        },
{
}

/// `If-None-Match` alone: it fails for `*`, and for a tag that reads like the object's, strong
/// or weak. Then the answer is `NotModified`.
pub proof fn law_if_none_match(
    c: &Conditions,
    etag: &ETag,
    modified: i128,
    known: ETagCondition,
    r: Option<S3ErrorCode>,
)
    requires
        call_ensures(Conditions::check, (c, etag, modified), r),
        c.if_match is None,
        c.if_unmodified_since is None,
        c.if_none_match == Some(known),
        c.if_modified_since is None,
    ensures
        r is None || r == Some(S3ErrorCode::NotModified),
        match (known, *etag) {
            (ETagCondition::Any, _) => r is Some,
            (ETagCondition::ETag(ETag::Strong(k)), ETag::Strong(t)) => r is Some <==> k@ == t@,
            (ETagCondition::ETag(ETag::Strong(k)), ETag::Weak(t)) => r is Some <==> k@ == t@,
            (ETagCondition::ETag(ETag::Weak(k)), ETag::Strong(t)) => r is Some <==> k@ == t@,
            (ETagCondition::ETag(ETag::Weak(k)), ETag::Weak(t)) => r is Some <==> k@ == t@,
        },
{
}

/// Conditional headers act one by one: the answer is the one that some header alone would give,
/// a failed precondition before `NotModified`, and success only if each header alone succeeds.
pub proof fn law_conditions_combine(
    c: &Conditions,
    etag: &ETag,
    modified: i128,
    r: Option<S3ErrorCode>,
    matched: Option<S3ErrorCode>,
    unmodified: Option<S3ErrorCode>,
    unmatched: Option<S3ErrorCode>,
    modified_since: Option<S3ErrorCode>,
)
    requires
        call_ensures(Conditions::check, (c, etag, modified), r),
        call_ensures(
            Conditions::check,
            (
                &(Conditions {
                    if_match: c.if_match,
                    if_unmodified_since: None,
                    if_none_match: None,
                    if_modified_since: None,
                }),
                etag,
                modified,
            ),
            matched,
        ),
        call_ensures(
            Conditions::check,
            (
                &(Conditions {
                    if_match: None,
                    if_unmodified_since: c.if_unmodified_since,
                    if_none_match: None,
                    if_modified_since: None,
                }),
                etag,
                modified,
            ),
            unmodified,
        ),
        call_ensures(
            Conditions::check,
            (
                &(Conditions {
                    if_match: None,
                    if_unmodified_since: None,
                    if_none_match: c.if_none_match,
                    if_modified_since: None,
                }),
                etag,
                modified,
            ),
            unmatched,
        ),
        call_ensures(
            Conditions::check,
            (
                &(Conditions {
                    if_match: None,
                    if_unmodified_since: None,
                    if_none_match: None,
                    if_modified_since: c.if_modified_since,
                }),
                etag,
                modified,
            ),
            modified_since,
        ),
    ensures
        r == if matched is Some {
            matched
        } else if unmodified is Some {
            unmodified
        } else if unmatched is Some {
            unmatched
        } else {
            modified_since
        },
{
}

/// `If-Modified-Since` is monotone, whatever the other headers say: a time that makes a request
/// answered `NotModified` makes every later time do so.
pub proof fn law_later_modified_since(
    c: &Conditions,
    etag: &ETag,
    modified: i128,
    since: i128,
    later: i128,
    before: Option<S3ErrorCode>,
    after: Option<S3ErrorCode>,
)
    requires
        c.if_modified_since == Some(since),
        since <= later,
        call_ensures(Conditions::check, (c, etag, modified), before),
        call_ensures(
            Conditions::check,
            (&(Conditions { if_modified_since: Some(later), ..*c }), etag, modified),
            after,
        ),
    ensures
        before is Some ==> after == before,
{
}

/// `If-Unmodified-Since` is monotone, whatever the other headers say: a time that passes it lets
/// every later time pass.
pub proof fn law_later_unmodified_since(
    c: &Conditions,
    etag: &ETag,
    modified: i128,
    since: i128,
    later: i128,
    before: Option<S3ErrorCode>,
    after: Option<S3ErrorCode>,
)
    requires
        c.if_unmodified_since == Some(since),
        since <= later,
        call_ensures(Conditions::check, (c, etag, modified), before),
        call_ensures(
            Conditions::check,
            (&(Conditions { if_unmodified_since: Some(later), ..*c }), etag, modified),
            after,
        ),
    ensures
        before != Some(S3ErrorCode::PreconditionFailed) ==> after == before,
{
}

/// What a response says of a file: its length and modification time, that ranges are served, the
/// content type of its path, and a strong tag of its length and modification time, as listings
/// show it.
pub proof fn law_object_is_described(
    s: FileStatus,
    expose: bool,
    conditions: &Conditions,
    r: Result<ObjectInfo, S3Error>,
    tag: String,
    m: &ObjectMetadata,
    content_type: String,
)
    requires
        call_ensures(head_object, (Ok::<FileStatus, HdfsError>(s), expose, conditions), r),
        call_ensures(crate::metadata::fallback_etag, (s.length as u64, s.modification_time), tag),
        m.path@ == s.path@,
        call_ensures(ObjectMetadata::content_type, (m,), content_type),
    ensures
        r matches Ok(info) ==> {
            &&& !s.isdir
            &&& info.content_length == s.length
            &&& info.last_modified == s.modification_time
            &&& info.accept_ranges@ == "bytes"@
            &&& info.e_tag matches ETag::Strong(t) && t@ == tag@
            &&& info.content_type@ == content_type@
        },
{
}

/// Nothing about a file but conditional headers stands in the way of a response: it is served
/// just when its tag and modification time pass them, and refused with their code otherwise.
pub proof fn law_files_are_served(
    s: FileStatus,
    expose: bool,
    conditions: &Conditions,
    r: Result<ObjectInfo, S3Error>,
    tag: String,
    etag: &ETag,
    refused: Option<S3ErrorCode>,
)
    requires
        !s.isdir,
        call_ensures(head_object, (Ok::<FileStatus, HdfsError>(s), expose, conditions), r),
        call_ensures(crate::metadata::fallback_etag, (s.length as u64, s.modification_time), tag),
        *etag matches ETag::Strong(t) && t@ == tag@,
        call_ensures(
            Conditions::check,
            (conditions, etag, (1_000_000 * s.modification_time) as i128),
            refused,
        ),
    ensures
        r is Ok <==> refused is None,
        r matches Err(e) ==> refused == Some(e.code) && e.message is None && e.source is None
            && e.request_id is None,
{
}

/// What is no file is no object: a directory is not found, whatever the headers say, and a
/// failure to look is reported as that failure.
pub proof fn law_only_files_are_objects(
    status: Result<FileStatus, HdfsError>,
    expose: bool,
    conditions: &Conditions,
    r: Result<ObjectInfo, S3Error>,
    mapped: S3Error,
)
    requires
        call_ensures(head_object, (status, expose, conditions), r),
        status matches Err(e) ==> call_ensures(map_hdfs_error, (e, expose), mapped),
    ensures
        status matches Ok(s) && s.isdir ==> (r matches Err(e) && e.code == S3ErrorCode::NoSuchKey
            && e.message is None && e.source is None),
        status is Err ==> r == Err::<ObjectInfo, S3Error>(mapped),
{
}

/// One bucket is there, and no other.
pub proof fn law_one_bucket(
    mapper: &PathMapper,
    bucket: &str,
    key: &str,
    name: &str,
    head: Result<(), S3ErrorCode>,
    found: Result<String, S3ErrorCode>,
    path: Option<String>,
)
    requires
        call_ensures(PathMapper::bucket, (mapper,), name),
        call_ensures(head_bucket, (mapper, bucket), head),
        call_ensures(locate_object, (mapper, bucket, key), found),
        call_ensures(PathMapper::key_to_hdfs_path, (mapper, key), path),
    ensures
        bucket@ == name@ ==> head is Ok,
        bucket@ != name@ ==> head == Err::<(), S3ErrorCode>(S3ErrorCode::NoSuchBucket) && found
            == Err::<String, S3ErrorCode>(S3ErrorCode::NoSuchBucket),
        bucket@ == name@ ==> match path {
            Some(p) => found matches Ok(q) && q@ == p@,
            None => found == Err::<String, S3ErrorCode>(S3ErrorCode::NoSuchKey),
        },
{
}

/// Without a range the whole file is read, and the response declares no range.
pub proof fn law_read_all(file_len: u64, r: Result<ReadPlan, S3ErrorCode>)
    requires
        file_len <= usize::MAX,
        call_ensures(plan_read, (file_len, None::<ByteRange>), r),
    ensures
        r matches Ok(plan) && plan.window_start == 0 && plan.window_end == file_len
            && plan.content_length == file_len && plan.content_range is None,
{
}

/// With a range the window of the range is read, as long as it is, and the response declares
/// where in the file it lies. A range without a window is refused.
pub proof fn law_read_range(
    file_len: u64,
    range: ByteRange,
    window: Option<(u64, u64)>,
    header: String,
    r: Result<ReadPlan, S3ErrorCode>,
)
    requires
        file_len <= usize::MAX,
        call_ensures(resolve_range, (file_len, range), window),
        call_ensures(plan_read, (file_len, Some(range)), r),
        window matches Some((start, end)) ==> (start < end ==> call_ensures(
            fmt_content_range,
            (start, (end - 1) as u64, file_len),
            header,
        )),
    ensures
        match window {
            None => r == Err::<ReadPlan, S3ErrorCode>(S3ErrorCode::InvalidRange),
            Some((start, end)) => r matches Ok(plan) && {
                &&& plan.window_start == start
                &&& plan.window_end == end
                &&& plan.content_length == end - start
                &&& start < end ==> (plan.content_range matches Some(text) && text@ == header@)
                &&& start == end ==> plan.content_range is None
            },
        },
{
    crate::range::law_window_exact(file_len, range);
}

/// A `Content-Range` header names the unit, both ends and the size, in decimal.
pub proof fn law_content_range_text(
    start: u64,
    end_inclusive: u64,
    size: u64,
    header: String,
    a: String,
    b: String,
    c: String,
)
    requires
        call_ensures(fmt_content_range, (start, end_inclusive, size), header),
        call_ensures(numeral_text, (start as u128, 10u8), a),
        call_ensures(numeral_text, (end_inclusive as u128, 10u8), b),
        call_ensures(numeral_text, (size as u128, 10u8), c),
    ensures
        header@ == "bytes "@ + a@ + "-"@ + b@ + "/"@ + c@,
{
}

/// A window that this machine cannot address is refused, with or without a range.
pub proof fn law_unaddressable_windows(
    file_len: u64,
    range: ByteRange,
    window: Option<(u64, u64)>,
    ranged: Result<ReadPlan, S3ErrorCode>,
    whole: Result<ReadPlan, S3ErrorCode>,
)
    requires
        call_ensures(resolve_range, (file_len, range), window),
        call_ensures(plan_read, (file_len, Some(range)), ranged),
        call_ensures(plan_read, (file_len, None::<ByteRange>), whole),
    ensures
        window matches Some((_, end)) ==> end > usize::MAX ==> ranged == Err::<
            ReadPlan,
            S3ErrorCode,
        >(S3ErrorCode::InvalidRange),
        window is None ==> ranged == Err::<ReadPlan, S3ErrorCode>(S3ErrorCode::InvalidRange),
        file_len > usize::MAX ==> whole == Err::<ReadPlan, S3ErrorCode>(S3ErrorCode::InvalidRange),
        whole matches Err(e) ==> file_len > usize::MAX,
{
}

} // verus!
