//! What a `ListObjectsV2` request is answered.
//!
//! [`plan_list`] reads the request, and [`list_step`] says how it is listed. With a delimiter
//! one listing of the prefix's directory makes the page ([`delimited_page`]); without one the
//! lazy merge of [`crate::sorted_listing`] does ([`flat_page`]). [`list_output`] puts the
//! response together.

use crate::error::{map_hdfs_error, s3_error_of, HdfsError, HdfsErrorKind, S3Error, S3ErrorCode};
use crate::listing::{
    copy_entry, dir_delimiter, is_cut_at, is_marked, lemma_cut_unique, lemma_filter_count,
    lemma_filter_members, lemma_marked, lemma_shown_contents, lemma_shown_prefixes,
    lemma_whole_contents, lemma_whole_prefixes, paginate, texts, view_opt, Level, ListEntry, Page,
};
use crate::metadata::{fallback_etag, fallback_etag_of};
use crate::path::{key_of_path, start_of, PathMapper};
use crate::sorted_listing::{describes, lists, FileStatus};
use crate::text::{key_lt, lemma_encode_injective, same_text};
use crate::token::{
    decode_token, decodes_to, encode_token, is_token_of, law_token_decodes_uniquely,
    law_token_round_trip, token_bytes,
};
use vstd::prelude::*;
use vstd::utf8::valid_utf8;

verus! {

/// The parameters of a `ListObjectsV2` request.
#[derive(Debug, PartialEq, Eq)]
pub struct ListRequest {
    pub bucket: String,
    pub prefix: Option<String>,
    pub delimiter: Option<String>,
    pub max_keys: Option<i32>,
    pub continuation_token: Option<String>,
    pub start_after: Option<String>,
}

/// How a request is to be listed.
#[derive(Debug, PartialEq, Eq)]
pub struct ListPlan {
    pub prefix: String,
    /// The delimiter, if keys are to be grouped.
    pub delimiter: Option<String>,
    pub max_keys: usize,
    /// Only keys after this one are listed.
    pub start_after: Option<String>,
    /// The HDFS directory to list; `None` if the prefix cannot match any key.
    pub start: Option<String>,
}

/// The view of an optional string.
pub open spec fn view_string(s: Option<String>) -> Option<Seq<char>> {
    match s {
        Some(t) => Some(t@),
        None => None,
    }
}

/// The most keys that a request asks for, as asked.
pub open spec fn asked_keys(r: ListRequest) -> i32 {
    match r.max_keys {
        Some(n) => n,
        None => 1000,
    }
}

/// The most keys that a page may hold. A negative limit wraps around to a huge one.
pub open spec fn key_limit(n: i32) -> int {
    if n >= 0 {
        n as int
    } else {
        usize::MAX + 1 + n
    }
}

/// The prefix asked for; empty by default.
pub open spec fn asked_prefix(r: ListRequest) -> Seq<char> {
    match r.prefix {
        Some(p) => p@,
        None => Seq::empty(),
    }
}

/// The delimiter asked for. An empty one means no grouping.
pub open spec fn asked_delimiter(r: ListRequest) -> Option<Seq<char>> {
    match r.delimiter {
        Some(d) if d@.len() > 0 => Some(d@),
        _ => None,
    }
}

/// The listing resumes after `marker`: the key of the continuation token, or else
/// `start_after`.
pub open spec fn resumes_after(r: ListRequest, marker: Option<Seq<char>>) -> bool {
    match r.continuation_token {
        Some(token) => marker matches Some(key) && decodes_to(token@, key),
        None => marker == view_string(r.start_after),
    }
}

/// The continuation token, if there is one, is not a token.
pub open spec fn has_bad_token(r: ListRequest) -> bool {
    r.continuation_token matches Some(token) && (token_bytes(token@) matches Some(b)
        ==> !valid_utf8(b))
}

/// The most keys that a page may hold.
fn limit_keys(n: i32) -> (r: usize)
    ensures
        r == key_limit(n),
{
    if n >= 0 {
        n as usize
    } else {
        let below: usize = (-1 - n) as usize;
        usize::MAX - below
    }
}

/// `plan` is how a request to the bucket `bucket`, whose files lie below `root`, is listed.
pub open spec fn plans(
    root: Seq<char>,
    bucket: Seq<char>,
    request: ListRequest,
    plan: ListPlan,
) -> bool {
    &&& request.bucket@ == bucket
    &&& plan.prefix@ == asked_prefix(request)
    &&& view_string(plan.delimiter) == asked_delimiter(request)
    &&& plan.max_keys == key_limit(asked_keys(request))
    &&& resumes_after(request, view_string(plan.start_after))
    &&& view_string(plan.start) == start_of(root, plan.prefix@)
}

/// Read a request: `NoSuchBucket` outside the exposed bucket, `InvalidToken` for a
/// continuation token that does not decode (falling back to the first page would make a
/// client with a corrupted token poll it forever).
pub fn plan_list(mapper: &PathMapper, request: &ListRequest) -> (r: Result<ListPlan, S3ErrorCode>)
    ensures
        match r {
            Ok(plan) => plans(mapper.root_view(), mapper.bucket_view(), *request, plan),
            Err(e) => if request.bucket@ != mapper.bucket_view() {
                e == S3ErrorCode::NoSuchBucket
            } else {
                e == S3ErrorCode::InvalidToken && has_bad_token(*request)
            },
        },
{
    if !same_text(request.bucket.as_str(), mapper.bucket()) {
        return Err(S3ErrorCode::NoSuchBucket);
    }
    let prefix = match &request.prefix {
        Some(p) => p.clone(),
        None => String::new(),
    };
    let delimiter = match &request.delimiter {
        Some(d) => if d.as_str().is_empty() {
            None
        } else {
            Some(d.clone())
        },
        None => None,
    };
    let asked: i32 = match request.max_keys {
        Some(n) => n,
        None => 1000,
    };
    let start_after = match &request.continuation_token {
        Some(token) => match decode_token(token.as_str()) {
            Some(key) => Some(key),
            None => {
                return Err(S3ErrorCode::InvalidToken);
            },
        },
        None => match &request.start_after {
            Some(key) => Some(key.clone()),
            None => None,
        },
    };
    let start = mapper.list_start(prefix.as_str());
    Ok(ListPlan { prefix, delimiter, max_keys: limit_keys(asked), start_after, start })
}

/// Where the page of a plan comes from.
#[derive(Debug, PartialEq, Eq)]
pub enum ListStep {
    /// One listing of the directory, grouped; nothing to list if there is no directory.
    Level(Option<String>),
    /// The lazy merge, from the directory on.
    Merge(String),
    /// No key can match: the page is empty.
    Empty,
}

/// How a plan is listed: one listing of the prefix's directory where keys are grouped, the
/// lazy merge where they are not.
pub fn list_step(plan: &ListPlan) -> (s: ListStep)
    ensures
        match s {
            ListStep::Level(dir) => plan.delimiter is Some && dir == plan.start,
            ListStep::Merge(start) => plan.delimiter is None && plan.start == Some(start),
            ListStep::Empty => plan.delimiter is None && plan.start is None,
        },
{
    if plan.delimiter.is_some() {
        return ListStep::Level(copy_text(&plan.start));
    }
    match &plan.start {
        Some(start) => ListStep::Merge(start.clone()),
        None => ListStep::Empty,
    }
}

// ---------------------------------------------------------------------------------------
// Delimited pages
// ---------------------------------------------------------------------------------------

/// The key of a status below the root; the root itself has none.
pub open spec fn child_key(root: Seq<char>, s: FileStatus) -> Option<Seq<char>> {
    match key_of_path(root, s.path@) {
        Some(key) if key.len() > 0 => Some(key),
        _ => None,
    }
}

/// The files among `statuses` that have a key.
pub open spec fn files_of(root: Seq<char>, statuses: Seq<FileStatus>) -> Seq<FileStatus> {
    statuses.filter(|s: FileStatus| !s.isdir && child_key(root, s) is Some)
}

/// The keys of the directories among `statuses`.
pub open spec fn dir_keys(root: Seq<char>, statuses: Seq<FileStatus>) -> Seq<Seq<char>>
    decreases statuses.len(),
{
    if statuses.len() == 0 {
        Seq::empty()
    } else {
        let front = dir_keys(root, statuses.drop_last());
        match child_key(root, statuses.last()) {
            Some(key) if statuses.last().isdir => front.push(key),
            _ => front,
        }
    }
}

/// The files and the directories of one listing, by their keys.
pub fn split_statuses(mapper: &PathMapper, statuses: Vec<FileStatus>) -> (r: (
    Vec<ListEntry>,
    Vec<String>,
))
    ensures
        lists(mapper.root_view(), files_of(mapper.root_view(), statuses@), r.0@),
        texts(r.1@) == dir_keys(mapper.root_view(), statuses@),
{
    let ghost root = mapper.root_view();
    let mut files: Vec<ListEntry> = Vec::new();
    let mut dirs: Vec<String> = Vec::new();
    proof {
        reveal(Seq::filter);
        assert(statuses@.take(0) =~= Seq::<FileStatus>::empty());
        assert(texts(dirs@) =~= Seq::<Seq<char>>::empty());
    }
    let mut i: usize = 0;
    while i < statuses.len()
        invariant
            i <= statuses.len(),
            root == mapper.root_view(),
            lists(root, files_of(root, statuses@.take(i as int)), files@),
            texts(dirs@) == dir_keys(root, statuses@.take(i as int)),
        decreases statuses.len() - i,
    {
        let ghost before = dirs@;
        let ghost files0 = files@;
        let s = &statuses[i];
        proof {
            reveal(Seq::filter);
            let front = statuses@.take(i + 1);
            assert(front.drop_last() =~= statuses@.take(i as int));
            assert(front.last() == *s);
        }
        if let Some(key) = mapper.hdfs_path_to_key(s.path.as_str()) {
            if !key.as_str().is_empty() {
                if s.isdir {
                    dirs.push(key);
                    assert(texts(dirs@) =~= texts(before).push(key@));
                } else {
                    files.push(
                        ListEntry {
                            key,
                            size: s.length as u64,
                            modification_time: s.modification_time,
                        },
                    );
                }
            }
        }
        i += 1;
    }
    assert(statuses@.take(statuses@.len() as int) =~= statuses@);
    (files, dirs)
}

/// The direct children of the prefix's directory, as they are listed.
pub open spec fn is_level(
    root: Seq<char>,
    statuses: Seq<FileStatus>,
    plan: ListPlan,
    level: Level,
) -> bool {
    &&& lists(root, files_of(root, statuses), level.files)
    &&& level.dirs == dir_keys(root, statuses)
    &&& level.prefix == plan.prefix@
    &&& level.delimiter == view_string(plan.delimiter)
}

/// `page` is the page of the plan over a directory that lists `statuses`.
pub open spec fn pages_statuses(
    root: Seq<char>,
    statuses: Seq<FileStatus>,
    plan: ListPlan,
    page: Page,
) -> bool {
    exists|level: Level|
        is_level(root, statuses, plan, level) && #[trigger] level.pages(
            view_string(plan.start_after),
            plan.max_keys as nat,
            page,
        )
}

/// One page of a delimited listing, from the non-recursive listing of the plan's directory.
/// Without such a directory, or if it does not exist, the listing is empty and not an error:
/// clients probe prefixes before they exist.
pub fn delimited_page(
    mapper: &PathMapper,
    plan: &ListPlan,
    answer: Result<Vec<FileStatus>, HdfsError>,
    expose: bool,
) -> (r: Result<Page, S3Error>)
    ensures
        match answer {
            Ok(statuses) => r matches Ok(page) && pages_statuses(
                mapper.root_view(),
                if plan.start is Some {
                    statuses@
                } else {
                    Seq::empty()
                },
                *plan,
                page,
            ),
            Err(e) => if plan.start is None || e.kind is FileNotFound {
                r matches Ok(page) && pages_statuses(
                    mapper.root_view(),
                    Seq::empty(),
                    *plan,
                    page,
                )
            } else {
                r == Err::<Page, S3Error>(s3_error_of(e, expose))
            },
        },
{
    let mut statuses: Vec<FileStatus> = Vec::new();
    if plan.start.is_some() {
        match answer {
            Ok(listed) => {
                statuses = listed;
            },
            Err(e) => {
                let missing = match &e.kind {
                    HdfsErrorKind::FileNotFound => true,
                    _ => false,
                };
                if !missing {
                    return Err(map_hdfs_error(e, expose));
                }
            },
        }
    }
    let ghost all = statuses@;
    assert(answer is Err || plan.start is None ==> all =~= Seq::empty());
    let (files, dirs) = split_statuses(mapper, statuses);
    let delimiter = match &plan.delimiter {
        Some(d) => Some(d.as_str()),
        None => None,
    };
    let marker = match &plan.start_after {
        Some(m) => Some(m.as_str()),
        None => None,
    };
    let page = paginate(
        files.as_slice(),
        dirs.as_slice(),
        plan.prefix.as_str(),
        delimiter,
        marker,
        plan.max_keys,
    );
    proof {
        let level = Level {
            files: files@,
            dirs: texts(dirs@),
            prefix: plan.prefix@,
            delimiter: view_opt(delimiter),
        };
        assert(is_level(mapper.root_view(), all, *plan, level));
        assert(view_opt(marker) == view_string(plan.start_after));
        assert(level.pages(view_string(plan.start_after), plan.max_keys as nat, page));
    }
    Ok(page)
}

// ---------------------------------------------------------------------------------------
// Flat pages
// ---------------------------------------------------------------------------------------

/// `page` shows `entries` and no CommonPrefixes, and resumes after the last of them if it is
/// truncated.
pub open spec fn pages_entries(entries: Seq<ListEntry>, is_truncated: bool, page: Page) -> bool {
    &&& page.contents@ == entries
    &&& page.common_prefixes@.len() == 0
    &&& page.is_truncated == is_truncated
    &&& match page.next_token {
        Some(key) => is_truncated && entries.len() > 0 && key@ == entries.last().key@,
        None => !is_truncated || entries.len() == 0,
    }
}

/// The page of a flat listing, from its entries. It resumes after its last key.
pub fn flat_page(entries: Vec<ListEntry>, is_truncated: bool) -> (page: Page)
    ensures
        pages_entries(entries@, is_truncated, page),
{
    let next_token = if is_truncated && entries.len() > 0 {
        Some(entries[entries.len() - 1].key.clone())
    } else {
        None
    };
    Page { contents: entries, common_prefixes: Vec::new(), is_truncated, next_token }
}

// ---------------------------------------------------------------------------------------
// The response
// ---------------------------------------------------------------------------------------

/// An object in a listing.
#[derive(Debug, PartialEq, Eq)]
pub struct ObjectSummary {
    pub key: String,
    pub size: u64,
    /// Last-modified time, milliseconds since the Unix epoch.
    pub last_modified: u64,
    /// A strong entity tag.
    pub e_tag: String,
}

/// The response to a `ListObjectsV2` request.
#[derive(Debug, PartialEq, Eq)]
pub struct ListOutput {
    pub name: String,
    pub prefix: Option<String>,
    pub delimiter: Option<String>,
    pub max_keys: i32,
    pub is_truncated: bool,
    /// `None` instead of an empty list.
    pub contents: Option<Vec<ObjectSummary>>,
    /// `None` instead of an empty list.
    pub common_prefixes: Option<Vec<String>>,
    pub continuation_token: Option<String>,
    pub next_continuation_token: Option<String>,
    pub key_count: u128,
}

/// `o` is the summary of the entry `e`.
pub open spec fn summarizes(e: ListEntry, o: ObjectSummary) -> bool {
    &&& o.key@ == e.key@
    &&& o.size == e.size
    &&& o.last_modified == e.modification_time
    &&& o.e_tag@ == fallback_etag_of(e.size, e.modification_time)
}

/// The summaries of entries.
fn summaries(entries: Vec<ListEntry>) -> (r: Vec<ObjectSummary>)
    ensures
        r@.len() == entries@.len(),
        forall|i: int| 0 <= i < r@.len() ==> summarizes(entries@[i], #[trigger] r@[i]),
{
    let mut r: Vec<ObjectSummary> = Vec::new();
    let mut i: usize = 0;
    while i < entries.len()
        invariant
            i <= entries.len(),
            r@.len() == i,
            forall|k: int| 0 <= k < i ==> summarizes(entries@[k], #[trigger] r@[k]),
        decreases entries.len() - i,
    {
        let e = copy_entry(&entries[i]);
        r.push(
            ObjectSummary {
                e_tag: fallback_etag(e.size, e.modification_time),
                key: e.key,
                size: e.size,
                last_modified: e.modification_time,
            },
        );
        i += 1;
    }
    r
}

/// A copy of an optional string.
fn copy_text(s: &Option<String>) -> (r: Option<String>)
    ensures
        r == *s,
{
    match s {
        Some(t) => Some(t.clone()),
        None => None,
    }
}

/// `out` is the response of the bucket `bucket` that shows `page`.
pub open spec fn responds(
    bucket: Seq<char>,
    request: ListRequest,
    page: Page,
    out: ListOutput,
) -> bool {
    &&& out.name@ == bucket
    &&& out.prefix == request.prefix
    &&& out.delimiter == request.delimiter
    &&& out.max_keys == asked_keys(request)
    &&& out.is_truncated == page.is_truncated
    &&& match out.contents {
        Some(objects) => {
            &&& objects@.len() == page.contents@.len() > 0
            &&& forall|i: int|
                0 <= i < objects@.len() ==> summarizes(page.contents@[i], #[trigger] objects@[i])
        },
        None => page.contents@.len() == 0,
    }
    &&& match out.common_prefixes {
        Some(prefixes) => prefixes@ == page.common_prefixes@ && prefixes@.len() > 0,
        None => page.common_prefixes@.len() == 0,
    }
    &&& out.continuation_token == request.continuation_token
    &&& match (page.next_token, out.next_continuation_token) {
        (Some(key), Some(token)) => is_token_of(key@, token@),
        (None, None) => true,
        _ => false,
    }
    &&& out.key_count == page.contents@.len() + page.common_prefixes@.len()
}

/// Put the response to a request together from its page.
pub fn list_output(mapper: &PathMapper, request: &ListRequest, page: Page) -> (out: ListOutput)
    ensures
        responds(mapper.bucket_view(), *request, page, out),
{
    let key_count: u128 = page.contents.len() as u128 + page.common_prefixes.len() as u128;
    let objects = summaries(page.contents);
    let contents = if objects.len() == 0 {
        None
    } else {
        Some(objects)
    };
    let common_prefixes = if page.common_prefixes.len() == 0 {
        None
    } else {
        Some(page.common_prefixes)
    };
    let next_continuation_token = match &page.next_token {
        Some(key) => Some(encode_token(key.as_str())),
        None => None,
    };
    ListOutput {
        name: mapper.bucket().to_string(),
        prefix: copy_text(&request.prefix),
        delimiter: copy_text(&request.delimiter),
        max_keys: match request.max_keys {
            Some(n) => n,
            None => 1000,
        },
        is_truncated: page.is_truncated,
        contents,
        common_prefixes,
        continuation_token: copy_text(&request.continuation_token),
        next_continuation_token,
        key_count,
    }
}

/// A client that hands the continuation token of a response back resumes right after the last
/// key of that response, whatever else its next request says, and is never refused.
pub proof fn law_token_resumes(
    key: Seq<char>,
    token: String,
    next: ListRequest,
    marker: Option<Seq<char>>,
)
    requires
        is_token_of(key, token@),
        next.continuation_token == Some(token),
    ensures
        resumes_after(next, marker) <==> marker == Some(key),
        !has_bad_token(next),
{
    law_token_round_trip(key, token@);
    law_token_decodes_uniquely(token@, key, key);
    if resumes_after(next, marker) {
        law_token_decodes_uniquely(token@, key, marker->0);
    }
}

/// The ETag that a listing shows for a file is the one that its own response carries.
pub proof fn law_listing_etag(
    root: Seq<char>,
    s: FileStatus,
    e: ListEntry,
    o: ObjectSummary,
    info: crate::object::ObjectInfo,
)
    requires
        describes(root, s, e),
        summarizes(e, o),
        crate::object::info_of(s, info),
    ensures
        o.e_tag@ == info.e_tag.tag(),
        o.size == info.content_length,
        o.last_modified == info.last_modified,
{
}

// ---------------------------------------------------------------------------------------
// Laws of the executable functions
// ---------------------------------------------------------------------------------------

/// A request is read as it is written: prefix, delimiter and limit are those asked for, by
/// default none, none and a thousand keys, and the listing starts where the prefix does. An empty
/// delimiter is none.
pub proof fn law_request_is_read(
    mapper: &PathMapper,
    request: &ListRequest,
    plan: ListPlan,
    prefix: &str,
    start: Option<String>,
)
    requires
        call_ensures(plan_list, (mapper, request), Ok::<ListPlan, S3ErrorCode>(plan)),
        request.prefix matches Some(p) ==> prefix@ == p@,
        request.prefix is None ==> prefix@.len() == 0,
        call_ensures(PathMapper::list_start, (mapper, prefix), start),
    ensures
        plan.prefix@ == prefix@,
        request.delimiter is None ==> plan.delimiter is None,
        request.delimiter matches Some(d) ==> (if d@.len() == 0 {
            plan.delimiter is None
        } else {
            plan.delimiter matches Some(e) && e@ == d@
        }),
        request.max_keys is None ==> plan.max_keys == 1000,
        request.max_keys matches Some(n) ==> n >= 0 ==> plan.max_keys == n,
        request.max_keys matches Some(n) ==> n < 0 ==> plan.max_keys == usize::MAX + 1 + n,
        plan.start is Some <==> start is Some,
        plan.start matches Some(s) ==> (start matches Some(t) && s@ == t@),
{
    assert(prefix@ =~= asked_prefix(*request));
}

/// A request for another bucket is refused; one with a token resumes at its key, or is refused
/// if the token is none; one without begins after the key that it names, if it names one. Nothing
/// else is refused.
pub proof fn law_request_resumes(
    mapper: &PathMapper,
    request: &ListRequest,
    r: Result<ListPlan, S3ErrorCode>,
    bucket: &str,
    token: &str,
    key: Option<String>,
)
    requires
        call_ensures(plan_list, (mapper, request), r),
        call_ensures(PathMapper::bucket, (mapper,), bucket),
        request.continuation_token matches Some(t) ==> token@ == t@,
        call_ensures(decode_token, (token,), key),
    ensures
        request.bucket@ != bucket@ ==> r == Err::<ListPlan, S3ErrorCode>(S3ErrorCode::NoSuchBucket),
        request.bucket@ == bucket@ && request.continuation_token is Some && key is None ==> r
            == Err::<ListPlan, S3ErrorCode>(S3ErrorCode::InvalidToken),
        request.bucket@ == bucket@ && request.continuation_token is Some && key is Some ==> (
        r matches Ok(plan) && (plan.start_after matches Some(k) && k@ == key->0@)),
        request.bucket@ == bucket@ && request.continuation_token is None ==> (r matches Ok(plan)
            && (plan.start_after is Some <==> request.start_after is Some) && (
        plan.start_after matches Some(k) ==> k@ == request.start_after->0@)),
{
    if let Some(t) = request.continuation_token {
        match key {
            Some(k) => {
                law_token_decodes_uniquely(t@, k@, k@);
                if let Ok(plan) = r {
                    law_token_decodes_uniquely(t@, k@, plan.start_after->0@);
                }
            },
            None => {
                if let Ok(plan) = r {
                    let k = plan.start_after->0@;
                    law_token_decodes_uniquely(t@, k, k);
                }
            },
        }
    }
}

/// A listing with a delimiter comes from one directory; one without from the merge, or from
/// nowhere if no key can match.
pub proof fn law_pages_have_a_source(plan: &ListPlan, s: ListStep)
    requires
        call_ensures(list_step, (plan,), s),
    ensures
        s is Level <==> plan.delimiter is Some,
        s matches ListStep::Level(dir) ==> dir == plan.start,
        s is Merge <==> plan.delimiter is None && plan.start is Some,
        s matches ListStep::Merge(dir) ==> plan.start == Some(dir),
        s is Empty <==> plan.delimiter is None && plan.start is None,
{
}

/// The status has a key that is not empty.
pub open spec fn is_keyed(root: Seq<char>, s: FileStatus) -> bool {
    key_of_path(root, s.path@) matches Some(key) && key.len() > 0
}

/// Files and directories with a key are as many as there are entries and keys of them.
proof fn lemma_split_count(
    root: Seq<char>,
    statuses: Seq<FileStatus>,
    keyed: spec_fn(FileStatus) -> bool,
)
    requires
        forall|s: FileStatus| #[trigger] keyed(s) <==> is_keyed(root, s),
    ensures
        files_of(root, statuses).len() + dir_keys(root, statuses).len() == statuses.filter(
            keyed,
        ).len(),
    decreases statuses.len(),
{
    reveal(Seq::filter);
    if statuses.len() > 0 {
        lemma_split_count(root, statuses.drop_last(), keyed);
        assert(keyed(statuses.last()) <==> is_keyed(root, statuses.last()));
    }
}

/// A directory's key is among the keys of the directories.
proof fn lemma_dir_key(root: Seq<char>, statuses: Seq<FileStatus>, i: int)
    requires
        0 <= i < statuses.len(),
        statuses[i].isdir,
        child_key(root, statuses[i]) is Some,
    ensures
        dir_keys(root, statuses).contains(child_key(root, statuses[i])->0),
    decreases statuses.len(),
{
    let front = statuses.drop_last();
    let all = dir_keys(root, statuses);
    let key = child_key(root, statuses[i])->0;
    if i == front.len() {
        assert(all[all.len() - 1] == key);
    } else {
        lemma_dir_key(root, front, i);
        let f = dir_keys(root, front);
        let k = choose|k: int| 0 <= k < f.len() && f[k] == key;
        assert(all[k] == key);
    }
}

/// Every key of a directory is that of one.
proof fn lemma_dir_of_key(root: Seq<char>, statuses: Seq<FileStatus>, key: Seq<char>) -> (i: int)
    requires
        dir_keys(root, statuses).contains(key),
    ensures
        0 <= i < statuses.len(),
        statuses[i].isdir,
        child_key(root, statuses[i]) == Some(key),
    decreases statuses.len(),
{
    let all = dir_keys(root, statuses);
    let k = choose|k: int| 0 <= k < all.len() && all[k] == key;
    let front = statuses.drop_last();
    let f = dir_keys(root, front);
    if k < f.len() {
        assert(f[k] == key);
        assert(f.contains(key));
        lemma_dir_of_key(root, front, key)
    } else {
        statuses.len() - 1
    }
}

/// Nothing of a listing is lost: there is one entry or one directory key for each status with a
/// key that is not empty, whatever its length and time.
pub proof fn law_statuses_are_split(
    mapper: &PathMapper,
    statuses: Vec<FileStatus>,
    r: (Vec<ListEntry>, Vec<String>),
    root: &str,
    keyed: spec_fn(FileStatus) -> bool,
    i: int,
)
    requires
        call_ensures(split_statuses, (mapper, statuses), r),
        call_ensures(PathMapper::root, (mapper,), root),
        forall|s: FileStatus| #[trigger]
            keyed(s) <==> (key_of_path(root@, s.path@) matches Some(key) && key.len() > 0),
        0 <= i < statuses@.len(),
        keyed(statuses@[i]),
    ensures
        r.0@.len() + r.1@.len() == statuses@.filter(keyed).len(),
        statuses@[i].isdir ==> texts(r.1@).contains(key_of_path(root@, statuses@[i].path@)->0),
        !statuses@[i].isdir ==> exists|j: int|
            0 <= j < r.0@.len() && (#[trigger] r.0@[j]).key@ == key_of_path(
                root@,
                statuses@[i].path@,
            )->0 && r.0@[j].size == statuses@[i].length && r.0@[j].modification_time
                == statuses@[i].modification_time,
{
    lemma_split_count(root@, statuses@, keyed);
    assert(texts(r.1@).len() == r.1@.len());
    let s = statuses@[i];
    assert(statuses@.contains(s));
    if s.isdir {
        lemma_dir_key(root@, statuses@, i);
    } else {
        let files = files_of(root@, statuses@);
        lemma_filter_members(
            statuses@,
            |s: FileStatus| !s.isdir && child_key(root@, s) is Some,
        );
        assert(files.contains(s));
        let j = choose|j: int| 0 <= j < files.len() && files[j] == s;
        assert(describes(root@, files[j], r.0@[j]));
        assert(r.0@[j].key@ == key_of_path(root@, s.path@)->0);
    }
}

/// Nothing is made up either: every entry is that of a file, every directory key that of a
/// directory.
pub proof fn law_split_has_a_source(
    mapper: &PathMapper,
    statuses: Vec<FileStatus>,
    r: (Vec<ListEntry>, Vec<String>),
    root: &str,
    j: int,
)
    requires
        call_ensures(split_statuses, (mapper, statuses), r),
        call_ensures(PathMapper::root, (mapper,), root),
    ensures
        0 <= j < r.0@.len() ==> exists|i: int|
            0 <= i < statuses@.len() && !(#[trigger] statuses@[i]).isdir && key_of_path(
                root@,
                statuses@[i].path@,
            ) == Some(r.0@[j].key@) && r.0@[j].key@.len() > 0 && r.0@[j].size
                == statuses@[i].length && r.0@[j].modification_time
                == statuses@[i].modification_time,
        0 <= j < r.1@.len() ==> exists|i: int|
            0 <= i < statuses@.len() && (#[trigger] statuses@[i]).isdir && key_of_path(
                root@,
                statuses@[i].path@,
            ) == Some(r.1@[j]@) && r.1@[j]@.len() > 0,
{
    if 0 <= j < r.0@.len() {
        let files = files_of(root@, statuses@);
        lemma_filter_members(
            statuses@,
            |s: FileStatus| !s.isdir && child_key(root@, s) is Some,
        );
        assert(describes(root@, files[j], r.0@[j]));
        assert(files.contains(files[j]));
        assert(statuses@.contains(files[j]));
        let i = choose|i: int| 0 <= i < statuses@.len() && statuses@[i] == files[j];
        assert(!statuses@[i].isdir);
    }
    if 0 <= j < r.1@.len() {
        let key = r.1@[j]@;
        assert(texts(r.1@)[j] == key);
        assert(dir_keys(root@, statuses@).contains(key));
        let i = lemma_dir_of_key(root@, statuses@, key);
        assert(statuses@[i].isdir);
    }
}

/// The level behind a page, and its entry for a file.
proof fn lemma_level_entry(
    root: Seq<char>,
    statuses: Seq<FileStatus>,
    plan: ListPlan,
    level: Level,
    i: int,
) -> (j: int)
    requires
        is_level(root, statuses, plan, level),
        0 <= i < statuses.len(),
        !statuses[i].isdir,
        child_key(root, statuses[i]) is Some,
    ensures
        0 <= j < level.files.len(),
        describes(root, statuses[i], level.files[j]),
{
    let s = statuses[i];
    let files = files_of(root, statuses);
    lemma_filter_members(statuses, |s: FileStatus| !s.isdir && child_key(root, s) is Some);
    assert(statuses.contains(s));
    assert(files.contains(s));
    let j = choose|j: int| 0 <= j < files.len() && files[j] == s;
    assert(describes(root, files[j], level.files[j]));
    j
}

/// A file of the listed directory, of whatever length and time, whose key begins with the prefix,
/// sorts after where the request begins, and has no delimiter after the prefix, is among the
/// Contents of an untruncated page, with its size and time.
pub proof fn law_delimited_page_holds_files(
    mapper: &PathMapper,
    plan: &ListPlan,
    statuses: Vec<FileStatus>,
    expose: bool,
    r: Result<Page, S3Error>,
    root: &str,
    i: int,
    key: Seq<char>,
)
    requires
        call_ensures(delimited_page, (mapper, plan, Ok(statuses), expose), r),
        call_ensures(PathMapper::root, (mapper,), root),
        plan.start is Some,
        0 <= i < statuses@.len(),
        !statuses@[i].isdir,
        key_of_path(root@, statuses@[i].path@) == Some(key),
        key.len() > 0,
        plan.prefix@.is_prefix_of(key),
        plan.delimiter matches Some(d) ==> d@.len() == 0 || !is_marked(key, plan.prefix@, d@),
        plan.start_after matches Some(m) ==> key_lt(m@, key),
    ensures
        r matches Ok(page) && (!page.is_truncated ==> exists|j: int|
            0 <= j < page.contents@.len() && (#[trigger] page.contents@[j]).key@ == key
                && page.contents@[j].size == statuses@[i].length
                && page.contents@[j].modification_time == statuses@[i].modification_time),
{
    broadcast use vstd::seq_lib::group_to_multiset_ensures;

    let page = r->Ok_0;
    let marker = view_string(plan.start_after);
    let level = choose|level: Level|
        is_level(root@, statuses@, *plan, level) && #[trigger] level.pages(
            marker,
            plan.max_keys as nat,
            page,
        );
    if !page.is_truncated {
        let k = lemma_level_entry(root@, statuses@, *plan, level, i);
        let e = level.files[k];
        assert(level.files.contains(e));
        lemma_whole_contents(level, marker, plan.max_keys as nat, page, e);
        if let Some(d) = plan.delimiter {
            lemma_marked(key, plan.prefix@, d@);
        }
        assert(page.contents@.contains(e));
        let j = choose|j: int| 0 <= j < page.contents@.len() && page.contents@[j] == e;
        assert(page.contents@[j].key@ == key);
    }
}

/// A file of the listed directory whose key has the delimiter after the prefix is in the
/// CommonPrefix that ends with the first one.
pub proof fn law_delimited_page_groups_files(
    mapper: &PathMapper,
    plan: &ListPlan,
    statuses: Vec<FileStatus>,
    expose: bool,
    r: Result<Page, S3Error>,
    root: &str,
    i: int,
    key: Seq<char>,
    delimiter: String,
    group: Seq<char>,
)
    requires
        call_ensures(delimited_page, (mapper, plan, Ok(statuses), expose), r),
        call_ensures(PathMapper::root, (mapper,), root),
        plan.start is Some,
        0 <= i < statuses@.len(),
        !statuses@[i].isdir,
        key_of_path(root@, statuses@[i].path@) == Some(key),
        key.len() > 0,
        plan.prefix@.is_prefix_of(key),
        plan.delimiter == Some(delimiter),
        delimiter@.len() > 0,
        is_cut_at(key, plan.prefix@, delimiter@, group),
        plan.start_after matches Some(m) ==> key_lt(m@, group),
    ensures
        r matches Ok(page) && (!page.is_truncated ==> texts(page.common_prefixes@).contains(group)),
{
    let page = r->Ok_0;
    let marker = view_string(plan.start_after);
    let level = choose|level: Level|
        is_level(root@, statuses@, *plan, level) && #[trigger] level.pages(
            marker,
            plan.max_keys as nat,
            page,
        );
    if !page.is_truncated {
        let k = lemma_level_entry(root@, statuses@, *plan, level, i);
        let prefix = plan.prefix@;
        let d = delimiter@;
        let (a, b) = choose|a: Seq<char>, b: Seq<char>|
            key == #[trigger] (prefix + a + d + b) && group == prefix + a + d
                && crate::listing::is_shortest(key, prefix, d, a);
        lemma_marked(key, prefix, d);
        assert(is_marked(key, prefix, d));
        lemma_cut_unique(key, prefix, d, group, crate::listing::group_of(key, prefix, d)->0);
        assert(crate::listing::collapsed(level.files[k].key@, level.prefix, level.delimiter)
            == Some(group));
        lemma_whole_prefixes(level, marker, plan.max_keys as nat, page, group);
    }
}

/// A directory in the listed one whose key begins with the prefix is shown as a CommonPrefix: its
/// key and a slash, cut at the first delimiter after the prefix if there is one.
pub proof fn law_delimited_page_groups_dirs(
    mapper: &PathMapper,
    plan: &ListPlan,
    statuses: Vec<FileStatus>,
    expose: bool,
    r: Result<Page, S3Error>,
    root: &str,
    i: int,
    key: Seq<char>,
    delimiter: String,
    group: Seq<char>,
)
    requires
        call_ensures(delimited_page, (mapper, plan, Ok(statuses), expose), r),
        call_ensures(PathMapper::root, (mapper,), root),
        plan.start is Some,
        0 <= i < statuses@.len(),
        statuses@[i].isdir,
        key_of_path(root@, statuses@[i].path@) == Some(key),
        key.len() > 0,
        plan.prefix@.is_prefix_of(key),
        plan.delimiter == Some(delimiter),
        delimiter@.len() > 0,
        is_marked(key.push('/'), plan.prefix@, delimiter@) ==> is_cut_at(
            key.push('/'),
            plan.prefix@,
            delimiter@,
            group,
        ),
        !is_marked(key.push('/'), plan.prefix@, delimiter@) ==> group == key.push('/'),
        plan.start_after matches Some(m) ==> key_lt(m@, group),
    ensures
        r matches Ok(page) && (!page.is_truncated ==> texts(page.common_prefixes@).contains(group)),
{
    let page = r->Ok_0;
    let marker = view_string(plan.start_after);
    let level = choose|level: Level|
        is_level(root@, statuses@, *plan, level) && #[trigger] level.pages(
            marker,
            plan.max_keys as nat,
            page,
        );
    if !page.is_truncated {
        lemma_dir_key(root@, statuses@, i);
        let k = choose|k: int| 0 <= k < level.dirs.len() && level.dirs[k] == key;
        let prefix = plan.prefix@;
        let d = delimiter@;
        let lead = key.push('/');
        assert(lead.subrange(0, prefix.len() as int) =~= key.subrange(0, prefix.len() as int));
        lemma_marked(lead, prefix, d);
        if is_marked(lead, prefix, d) {
            lemma_cut_unique(lead, prefix, d, group, crate::listing::group_of(lead, prefix, d)->0);
        }
        assert(dir_delimiter(level.delimiter) == d);
        assert(crate::listing::dir_group(level.dirs[k], level.prefix, level.delimiter) == group);
        lemma_whole_prefixes(level, marker, plan.max_keys as nat, page, group);
    }
}

/// Every Content of a page, truncated or not, is a file of the listed directory, as it is there.
pub proof fn law_delimited_contents_have_a_source(
    mapper: &PathMapper,
    plan: &ListPlan,
    statuses: Vec<FileStatus>,
    expose: bool,
    page: Page,
    root: &str,
    j: int,
)
    requires
        call_ensures(
            delimited_page,
            (mapper, plan, Ok(statuses), expose),
            Ok::<Page, S3Error>(page),
        ),
        call_ensures(PathMapper::root, (mapper,), root),
        0 <= j < page.contents@.len(),
    ensures
        plan.prefix@.is_prefix_of(page.contents@[j].key@),
        plan.delimiter matches Some(d) ==> d@.len() == 0 || !is_marked(
            page.contents@[j].key@,
            plan.prefix@,
            d@,
        ),
        plan.start_after matches Some(m) ==> key_lt(m@, page.contents@[j].key@),
        exists|i: int|
            0 <= i < statuses@.len() && !(#[trigger] statuses@[i]).isdir && key_of_path(
                root@,
                statuses@[i].path@,
            ) == Some(page.contents@[j].key@) && page.contents@[j].size == statuses@[i].length
                && page.contents@[j].modification_time == statuses@[i].modification_time,
{
    let marker = view_string(plan.start_after);
    let listed = if plan.start is Some {
        statuses@
    } else {
        Seq::empty()
    };
    let level = choose|level: Level|
        is_level(root@, listed, *plan, level) && #[trigger] level.pages(
            marker,
            plan.max_keys as nat,
            page,
        );
    let e = page.contents@[j];
    assert(page.contents@.contains(e));
    lemma_shown_contents(level, marker, plan.max_keys as nat, page, e);
    let k = choose|k: int| 0 <= k < level.files.len() && level.files[k] == e;
    let files = files_of(root@, listed);
    lemma_filter_members(listed, |s: FileStatus| !s.isdir && child_key(root@, s) is Some);
    assert(describes(root@, files[k], level.files[k]));
    assert(files.contains(files[k]));
    assert(listed.contains(files[k]));
    let i = choose|i: int| 0 <= i < listed.len() && listed[i] == files[k];
    assert(!statuses@[i].isdir);
    if let Some(d) = plan.delimiter {
        lemma_marked(e.key@, plan.prefix@, d@);
    }
}

/// A directory that is not there is empty, and so is one that no key can lie in; any other failure
/// to list is reported as that failure.
pub proof fn law_missing_directories_are_empty(
    mapper: &PathMapper,
    plan: &ListPlan,
    answer: Result<Vec<FileStatus>, HdfsError>,
    expose: bool,
    r: Result<Page, S3Error>,
    e: S3Error,
)
    requires
        call_ensures(delimited_page, (mapper, plan, answer, expose), r),
        answer matches Err(err) ==> call_ensures(map_hdfs_error, (err, expose), e),
    ensures
        plan.start is None || (answer matches Err(err) && err.kind is FileNotFound) ==> (
        r matches Ok(page) && page.contents@.len() == 0 && page.common_prefixes@.len() == 0
            && !page.is_truncated && page.next_token is None),
        plan.start is Some && (answer matches Err(err) && !(err.kind is FileNotFound)) ==> r
            == Err::<Page, S3Error>(e),
        plan.start is Some && answer is Ok ==> r is Ok,
{
    if plan.start is None || (answer matches Err(err) && err.kind is FileNotFound) {
        let page = r->Ok_0;
        let none = Seq::<FileStatus>::empty();
        let root = mapper.root_view();
        let marker = view_string(plan.start_after);
        let n = plan.max_keys as nat;
        assert(pages_statuses(root, none, *plan, page));
        let level = choose|level: Level|
            is_level(root, none, *plan, level) && #[trigger] level.pages(marker, n, page);
        reveal(Seq::filter);
        assert(level.files =~= Seq::empty());
        assert(level.dirs =~= Seq::empty());
        crate::listing::lemma_empty_level(level, marker, n, page);
    }
}

/// A flat page shows the entries in their order, and resumes after the last of them if there are
/// more.
pub proof fn law_flat_page_shows_its_entries(
    entries: Vec<ListEntry>,
    is_truncated: bool,
    page: Page,
)
    requires
        call_ensures(flat_page, (entries, is_truncated), page),
    ensures
        page.contents@ == entries@,
        page.common_prefixes@.len() == 0,
        page.is_truncated == is_truncated,
        page.next_token is Some <==> is_truncated && entries@.len() > 0,
        page.next_token matches Some(key) ==> key@ == entries@[entries@.len() - 1].key@,
{
}

/// A response repeats the request and shows the page: each Content with its key, size, time and
/// the tag of both, each CommonPrefix, how many they are, and whether there are more.
pub proof fn law_response_shows_the_page(
    mapper: &PathMapper,
    request: &ListRequest,
    page: Page,
    out: ListOutput,
    bucket: &str,
    i: int,
    tag: String,
)
    requires
        call_ensures(list_output, (mapper, request, page), out),
        call_ensures(PathMapper::bucket, (mapper,), bucket),
        0 <= i < page.contents@.len() ==> call_ensures(
            fallback_etag,
            (page.contents@[i].size, page.contents@[i].modification_time),
            tag,
        ),
    ensures
        out.name@ == bucket@,
        out.prefix == request.prefix,
        out.delimiter == request.delimiter,
        out.continuation_token == request.continuation_token,
        request.max_keys matches Some(n) ==> out.max_keys == n,
        request.max_keys is None ==> out.max_keys == 1000,
        out.is_truncated == page.is_truncated,
        out.key_count == page.contents@.len() + page.common_prefixes@.len(),
        out.contents is None <==> page.contents@.len() == 0,
        out.contents matches Some(objects) ==> objects@.len() == page.contents@.len(),
        0 <= i < page.contents@.len() ==> {
            let o = out.contents->0@[i];
            &&& o.key@ == page.contents@[i].key@
            &&& o.size == page.contents@[i].size
            &&& o.last_modified == page.contents@[i].modification_time
            &&& o.e_tag@ == tag@
        },
        out.common_prefixes is None <==> page.common_prefixes@.len() == 0,
        out.common_prefixes matches Some(prefixes) ==> prefixes@ == page.common_prefixes@,
{
    if 0 <= i < page.contents@.len() {
        assert(summarizes(page.contents@[i], out.contents->0@[i]));
    }
}

/// A response has a token just when its page resumes somewhere, and it is the token of that key.
pub proof fn law_response_resumes_the_page(
    mapper: &PathMapper,
    request: &ListRequest,
    page: Page,
    out: ListOutput,
    key: &str,
    token: String,
)
    requires
        call_ensures(list_output, (mapper, request, page), out),
        page.next_token matches Some(k) ==> key@ == k@,
        call_ensures(encode_token, (key,), token),
    ensures
        out.next_continuation_token is Some <==> page.next_token is Some,
        out.next_continuation_token matches Some(t) ==> t@ == token@,
{
    if let Some(t) = out.next_continuation_token {
        lemma_encode_injective(t@, token@);
    }
}

/// Entries of files pass a test just as their files do.
proof fn lemma_lists_filter_len(
    root: Seq<char>,
    files: Seq<FileStatus>,
    entries: Seq<ListEntry>,
    p: spec_fn(ListEntry) -> bool,
    q: spec_fn(FileStatus) -> bool,
)
    requires
        lists(root, files, entries),
        forall|s: FileStatus, e: ListEntry| #[trigger]
            describes(root, s, e) ==> p(e) == q(s),
    ensures
        entries.filter(p).len() == files.filter(q).len(),
    decreases files.len(),
{
    reveal(Seq::filter);
    if files.len() > 0 {
        let n = files.len() - 1;
        assert(describes(root, files[n], entries[n]));
        assert forall|i: int| 0 <= i < n implies describes(
            root,
            files.drop_last()[i],
            #[trigger] entries.drop_last()[i],
        ) by {
            assert(describes(root, files[i], entries[i]));
        }
        lemma_lists_filter_len(root, files.drop_last(), entries.drop_last(), p, q);
    }
}

/// Filtering twice is filtering by both.
proof fn lemma_filter_both(
    s: Seq<FileStatus>,
    p: spec_fn(FileStatus) -> bool,
    q: spec_fn(FileStatus) -> bool,
    both: spec_fn(FileStatus) -> bool,
)
    requires
        forall|x: FileStatus| #[trigger] both(x) <==> p(x) && q(x),
    ensures
        s.filter(p).filter(q).len() == s.filter(both).len(),
    decreases s.len(),
{
    reveal(Seq::filter);
    if s.len() > 0 {
        let front = s.drop_last();
        let last = s.last();
        lemma_filter_both(front, p, q, both);
        assert(both(last) <==> p(last) && q(last));
        if p(last) {
            assert(s.filter(p).drop_last() =~= front.filter(p));
            assert(s.filter(p).last() == last);
        }
    }
}

/// An untruncated page has one Content for each file of the listed directory that it is to show,
/// so that none is missing and none is there twice.
pub proof fn law_delimited_page_counts(
    mapper: &PathMapper,
    plan: &ListPlan,
    statuses: Vec<FileStatus>,
    expose: bool,
    page: Page,
    root: &str,
    is_shown: spec_fn(FileStatus) -> bool,
)
    requires
        call_ensures(
            delimited_page,
            (mapper, plan, Ok(statuses), expose),
            Ok::<Page, S3Error>(page),
        ),
        call_ensures(PathMapper::root, (mapper,), root),
        plan.start is Some,
        !page.is_truncated,
        forall|s: FileStatus| #[trigger]
            is_shown(s) <==> !s.isdir && (key_of_path(root@, s.path@) matches Some(key) && key.len()
                > 0 && plan.prefix@.is_prefix_of(key) && (plan.delimiter matches Some(d)
                ==> d@.len() == 0 || !is_marked(key, plan.prefix@, d@)) && (
            plan.start_after matches Some(m) ==> key_lt(m@, key))),
    ensures
        page.contents@.len() == statuses@.filter(is_shown).len(),
{
    broadcast use vstd::seq_lib::group_to_multiset_ensures;

    let marker = view_string(plan.start_after);
    let level = choose|level: Level|
        is_level(root@, statuses@, *plan, level) && #[trigger] level.pages(
            marker,
            plan.max_keys as nat,
            page,
        );
    let prefix = plan.prefix@;
    let p = |e: ListEntry|
        crate::listing::is_content(e.key@, level.prefix, level.delimiter) && crate::listing::past(
            marker,
            e.key@,
        );
    let has_key = |s: FileStatus| !s.isdir && child_key(root@, s) is Some;
    let q = |s: FileStatus|
        key_of_path(root@, s.path@) matches Some(key) && crate::listing::is_content(
            key,
            level.prefix,
            level.delimiter,
        ) && crate::listing::past(marker, key);
    assert(page.contents@.to_multiset() =~= level.files.filter(p).to_multiset()) by {
        assert forall|e: ListEntry| #[trigger] page.contents@.to_multiset().count(e)
            == level.files.filter(p).to_multiset().count(e) by {
            lemma_whole_contents(level, marker, plan.max_keys as nat, page, e);
            lemma_filter_count(level.files, p, e);
        }
    }
    assert(page.contents@.len() == page.contents@.to_multiset().len());
    assert(level.files.filter(p).len() == level.files.filter(p).to_multiset().len());
    assert forall|s: FileStatus, e: ListEntry| #[trigger] describes(root@, s, e) implies p(e) == q(
        s,
    ) by {}
    lemma_lists_filter_len(root@, files_of(root@, statuses@), level.files, p, q);
    assert forall|s: FileStatus| #[trigger] is_shown(s) <==> has_key(s) && q(s) by {
        if let Some(key) = key_of_path(root@, s.path@) {
            if let Some(d) = plan.delimiter {
                if prefix.is_prefix_of(key) {
                    lemma_marked(key, prefix, d@);
                }
            }
        }
    }
    lemma_filter_both(statuses@, has_key, q, is_shown);
}

/// `group` is that of a file or a directory among `statuses`.
pub open spec fn has_group(
    root: Seq<char>,
    statuses: Seq<FileStatus>,
    prefix: Seq<char>,
    mark: Seq<char>,
    group: Seq<char>,
) -> bool {
    exists|i: int|
        0 <= i < statuses.len() && is_group_of_status(
            root,
            #[trigger] statuses[i],
            prefix,
            mark,
            group,
        )
}

/// `group` is what the key of the file `s`, or those below the directory `s`, begin with up to
/// the first `mark` after the prefix; of a directory without one, all that they begin with.
pub open spec fn is_group_of_status(
    root: Seq<char>,
    s: FileStatus,
    prefix: Seq<char>,
    mark: Seq<char>,
    group: Seq<char>,
) -> bool {
    key_of_path(root, s.path@) matches Some(key) && key.len() > 0 && prefix.is_prefix_of(key) && (
    if s.isdir {
        is_cut_at(key.push('/'), prefix, mark, group) || !is_marked(key.push('/'), prefix, mark)
            && group == key.push('/')
    } else {
        is_cut_at(key, prefix, mark, group)
    })
}

/// Every CommonPrefix of a page, truncated or not, is that of something in the listed directory.
pub proof fn law_delimited_prefixes_have_a_source(
    mapper: &PathMapper,
    plan: &ListPlan,
    statuses: Vec<FileStatus>,
    expose: bool,
    page: Page,
    root: &str,
    delimiter: String,
    group: Seq<char>,
)
    requires
        call_ensures(
            delimited_page,
            (mapper, plan, Ok(statuses), expose),
            Ok::<Page, S3Error>(page),
        ),
        call_ensures(PathMapper::root, (mapper,), root),
        plan.delimiter == Some(delimiter),
        delimiter@.len() > 0,
        texts(page.common_prefixes@).contains(group),
    ensures
        plan.start_after matches Some(m) ==> key_lt(m@, group),
        has_group(root@, statuses@, plan.prefix@, delimiter@, group),
{
    let marker = view_string(plan.start_after);
    let listed = if plan.start is Some {
        statuses@
    } else {
        Seq::empty()
    };
    let level = choose|level: Level|
        is_level(root@, listed, *plan, level) && #[trigger] level.pages(
            marker,
            plan.max_keys as nat,
            page,
        );
    let prefix = plan.prefix@;
    let d = delimiter@;
    lemma_shown_prefixes(level, marker, plan.max_keys as nat, page, group);
    if crate::listing::groups_file(
        level.files,
        level.files.len() as int,
        level.prefix,
        level.delimiter,
        group,
    ) {
        let k = choose|k: int|
            0 <= k < level.files.len() && level.prefix.is_prefix_of(
                (#[trigger] level.files[k]).key@,
            ) && crate::listing::collapsed(level.files[k].key@, level.prefix, level.delimiter)
                == Some(group);
        lemma_marked(level.files[k].key@, prefix, d);
        let files = files_of(root@, listed);
        lemma_filter_members(listed, |s: FileStatus| !s.isdir && child_key(root@, s) is Some);
        assert(describes(root@, files[k], level.files[k]));
        assert(files.contains(files[k]));
        assert(listed.contains(files[k]));
        let i = choose|i: int| 0 <= i < listed.len() && listed[i] == files[k];
        assert(is_group_of_status(root@, statuses@[i], prefix, d, group));
    } else {
        let k = choose|k: int|
            0 <= k < level.dirs.len() && level.prefix.is_prefix_of(#[trigger] level.dirs[k])
                && crate::listing::dir_group(level.dirs[k], level.prefix, level.delimiter) == group;
        let key = level.dirs[k];
        assert(level.dirs.contains(key));
        let i = lemma_dir_of_key(root@, listed, key);
        let lead = key.push('/');
        assert(lead.subrange(0, prefix.len() as int) =~= key.subrange(0, prefix.len() as int));
        lemma_marked(lead, prefix, d);
        assert(dir_delimiter(level.delimiter) == d);
        assert(is_group_of_status(root@, statuses@[i], prefix, d, group));
    }
}

/// A page comes in order: Contents by key, CommonPrefixes by themselves and each once.
pub proof fn law_delimited_page_order(
    mapper: &PathMapper,
    plan: &ListPlan,
    answer: Result<Vec<FileStatus>, HdfsError>,
    expose: bool,
    page: Page,
    i: int,
    j: int,
)
    requires
        call_ensures(delimited_page, (mapper, plan, answer, expose), Ok::<Page, S3Error>(page)),
        0 <= i < j,
    ensures
        j < page.contents@.len() ==> !key_lt(page.contents@[j].key@, page.contents@[i].key@),
        j < page.common_prefixes@.len() ==> key_lt(
            page.common_prefixes@[i]@,
            page.common_prefixes@[j]@,
        ),
{
    let root = mapper.root_view();
    let listed = match answer {
        Ok(statuses) => if plan.start is Some {
            statuses@
        } else {
            Seq::empty()
        },
        Err(_) => Seq::empty(),
    };
    assert(pages_statuses(root, listed, *plan, page));
    let marker = view_string(plan.start_after);
    let level = choose|level: Level|
        is_level(root, listed, *plan, level) && #[trigger] level.pages(
            marker,
            plan.max_keys as nat,
            page,
        );
    crate::listing::lemma_level_order(level, marker, plan.max_keys as nat, page, i, j);
}

} // verus!
