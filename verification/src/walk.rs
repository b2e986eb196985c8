//! What a client is served that walks through a listing from token to token.
//!
//! A client asks for a page, hands the continuation token of the response back with its next
//! request, and so on until a response has none. The laws hold for any number of requests, so
//! also for a walk that is still on its way.

use crate::error::S3Error;
use crate::list_objects::{
    asked_delimiter, asked_keys, asked_prefix, child_key, delimited_page, dir_keys, files_of,
    is_group_of_status, is_level, law_token_resumes, pages_entries, pages_statuses, plans, responds,
    summarizes, view_string, ListOutput, ListPlan, ListRequest,
};
use crate::listing::{
    are_keys, climbing, collapsed, dir_group, first_keys, is_content, is_cut_at, is_marked, keys_of,
    law_delimited_lists_once, law_page_shows_first_keys, lemma_climbing_unique, lemma_cut_unique,
    lemma_filter_members, lemma_keys_after, lemma_marked, lemma_pages_begin, page_shows, past,
    shows_first, texts, Level, ListEntry, Page,
};
use crate::namespace::{
    belongs, found, is_child, is_namespace, is_not_above, is_page, is_page_of, is_run, key_in,
    law_flat_listing_exact, law_page_begins_whole, law_pages_tile, law_prefix_directory_reaches_all,
    lemma_prefix_not_above, reached, same_entry, state_after, way_open, Namespace, Round,
};
use crate::path::{
    abs_path, all_names, is_name, is_root, join, key_of_path, lemma_below_names, lemma_key_end,
    lemma_split_join, start_of, PathMapper,
};
use crate::sorted_listing::{describes, FileStatus, Merge, PageStep, Query};
use crate::text::key_lt;
use vstd::prelude::*;

verus! {

// ---------------------------------------------------------------------------------------
// Page after page
// ---------------------------------------------------------------------------------------

/// The first `i` pages, one after the other.
pub open spec fn joined_pages(pages: Seq<Seq<ListEntry>>, i: int) -> Seq<ListEntry>
    decreases i,
{
    if i <= 0 {
        Seq::empty()
    } else {
        joined_pages(pages, i - 1) + pages[i - 1]
    }
}

/// What is left of the listing `q` for page `i`: all of it for the first page, else what sorts
/// after the last key of the page before.
pub open spec fn left_for(q: Query, pages: Seq<Seq<ListEntry>>, i: int) -> Query {
    if i <= 0 {
        q
    } else {
        Query { after: Some(pages[i - 1].last().key@), ..q }
    }
}

/// Page `i` of a walk, `n` entries at a time, that goes on after its last page if `truncated`.
pub open spec fn is_walk_page(
    ns: Namespace,
    q: Query,
    start: Seq<char>,
    n: nat,
    pages: Seq<Seq<ListEntry>>,
    i: int,
    truncated: bool,
) -> bool {
    is_page(
        ns,
        left_for(q, pages, i),
        start,
        n,
        pages[i],
        i < pages.len() - 1 || truncated,
    )
}

/// `pages` is a walk through the listing `q`, `n` entries at a time, each page resumed after the
/// last key of the one before. Every page but the last is truncated; the last is if
/// `truncated`.
pub open spec fn is_flat_walk(
    ns: Namespace,
    q: Query,
    start: Seq<char>,
    n: nat,
    pages: Seq<Seq<ListEntry>>,
    truncated: bool,
) -> bool {
    &&& pages.len() > 0
    &&& forall|i: int|
        0 <= i < pages.len() ==> #[trigger] is_walk_page(ns, q, start, n, pages, i, truncated)
}

/// The first `i` pages of a walk are a page of the listing.
proof fn lemma_walked(
    ns: Namespace,
    q: Query,
    start: Seq<char>,
    n: nat,
    pages: Seq<Seq<ListEntry>>,
    truncated: bool,
    i: int,
)
    requires
        is_root(q.root),
        is_not_above(start, q.root),
        n >= 1,
        is_flat_walk(ns, q, start, n, pages, truncated),
        1 <= i <= pages.len(),
    ensures
        is_page(
            ns,
            q,
            start,
            (i * n) as nat,
            joined_pages(pages, i),
            i < pages.len() || truncated,
        ),
        joined_pages(pages, i).len() >= i - 1,
        i < pages.len() || truncated ==> {
            &&& joined_pages(pages, i).len() >= i
            &&& pages[i - 1].len() > 0
            &&& joined_pages(pages, i).last() == pages[i - 1].last()
        },
    decreases i,
{
    let more = i < pages.len() || truncated;
    assert(is_walk_page(ns, q, start, n, pages, i - 1, truncated));
    let page = pages[i - 1];
    assert(more ==> page.len() == n) by {
        let f = choose|f: Seq<FileStatus>| #[trigger]
            is_page_of(ns, left_for(q, pages, i - 1), start, n, f, page, more);
    }
    if i == 1 {
        assert(joined_pages(pages, 0) + page =~= page);
        assert(joined_pages(pages, 1) == joined_pages(pages, 0) + page);
        assert(1 * n == n);
    } else {
        lemma_walked(ns, q, start, n, pages, truncated, i - 1);
        let before = joined_pages(pages, i - 1);
        let served = ((i - 1) * n) as nat;
        assert((i - 1) * n >= 0) by (nonlinear_arith)
            requires
                i >= 1,
                n >= 1,
        ;
        assert(served + n == i * n) by (nonlinear_arith)
            requires
                served == (i - 1) * n,
        ;
        law_pages_tile(ns, q, start, served, before, n, page, more);
        assert(joined_pages(pages, i) == before + page);
    }
}

/// A walk of whatever page size serves the listing once. Joined, the pages so far are the
/// beginning of what one page without a limit would hold, and all of it once a page is not
/// truncated. The walk ends: it has at most one page more than there are entries. The start
/// directory may be any that is not above the root.
pub proof fn law_flat_walk(
    ns: Namespace,
    q: Query,
    start: Seq<char>,
    n: nat,
    pages: Seq<Seq<ListEntry>>,
    truncated: bool,
    max: nat,
    whole: Seq<ListEntry>,
)
    requires
        is_namespace(ns),
        is_root(q.root),
        is_not_above(start, q.root),
        n >= 1,
        is_flat_walk(ns, q, start, n, pages, truncated),
        is_page(ns, q, start, max, whole, false),
    ensures
        ({
            let joined = joined_pages(pages, pages.len() as int);
            &&& joined.len() <= whole.len()
            &&& truncated <==> joined.len() < whole.len()
            &&& forall|i: int| 0 <= i < joined.len() ==> same_entry(#[trigger] joined[i], whole[i])
        }),
        pages.len() <= whole.len() + 1,
        truncated ==> pages.len() <= whole.len(),
{
    let m = pages.len() as int;
    lemma_walked(ns, q, start, n, pages, truncated, m);
    law_page_begins_whole(
        ns,
        q,
        start,
        (m * n) as nat,
        joined_pages(pages, m),
        truncated,
        max,
        whole,
    );
}

/// After `rounds`, collecting the page comes to an end with `page`.
pub open spec fn ends_with(
    ns: Namespace,
    q: Query,
    start: Seq<char>,
    n: nat,
    rounds: Seq<Round>,
    post: Merge,
    page: Vec<ListEntry>,
    truncated: bool,
) -> bool {
    &&& is_run(ns, q, start, n, rounds)
    &&& state_after(q, start, rounds, rounds.len() as int).steps(
        n,
        post,
        PageStep::Page(page, truncated),
    )
}

/// A fresh listing over the namespace collects the page `entries`, of at most `n` entries,
/// however often it has to ask.
#[verifier::opaque]
pub open spec fn collects(
    ns: Namespace,
    q: Query,
    start: Seq<char>,
    n: nat,
    entries: Seq<ListEntry>,
    truncated: bool,
) -> bool {
    exists|rounds: Seq<Round>, post: Merge, page: Vec<ListEntry>|
        page@ == entries && #[trigger] ends_with(ns, q, start, n, rounds, post, page, truncated)
}

/// Collecting comes to a page of the listing.
proof fn lemma_collects(
    ns: Namespace,
    q: Query,
    start: Seq<char>,
    n: nat,
    entries: Seq<ListEntry>,
    truncated: bool,
)
    requires
        is_namespace(ns),
        is_root(q.root),
        collects(ns, q, start, n, entries, truncated),
    ensures
        is_page(ns, q, start, n, entries, truncated),
{
    reveal(collects);
    let (rounds, post, page) = choose|rounds: Seq<Round>, post: Merge, page: Vec<ListEntry>|
        page@ == entries && #[trigger] ends_with(ns, q, start, n, rounds, post, page, truncated);
    law_flat_listing_exact(ns, q, start, n, rounds, post, PageStep::Page(page, truncated));
}

/// Page `i` of a walk is collected by a fresh listing.
pub open spec fn collects_page(
    ns: Namespace,
    q: Query,
    start: Seq<char>,
    n: nat,
    pages: Seq<Seq<ListEntry>>,
    i: int,
    truncated: bool,
) -> bool {
    collects(
        ns,
        left_for(q, pages, i),
        start,
        n,
        pages[i],
        i < pages.len() - 1 || truncated,
    )
}

/// Pages that are collected by fresh listings, each after the last key of the page before, make
/// up what one listing collects without a limit: its beginning, and all of it once a page is
/// not truncated. There are at most as many truncated pages as there are entries. The start
/// directory may be any that is not above the root.
pub proof fn law_collected_walk(
    ns: Namespace,
    q: Query,
    start: Seq<char>,
    n: nat,
    pages: Seq<Seq<ListEntry>>,
    truncated: bool,
    max: nat,
    whole: Seq<ListEntry>,
)
    requires
        is_namespace(ns),
        is_root(q.root),
        is_not_above(start, q.root),
        n >= 1,
        pages.len() > 0,
        forall|i: int|
            0 <= i < pages.len() ==> #[trigger] collects_page(ns, q, start, n, pages, i, truncated),
        collects(ns, q, start, max, whole, false),
    ensures
        ({
            let joined = joined_pages(pages, pages.len() as int);
            &&& joined.len() <= whole.len()
            &&& truncated <==> joined.len() < whole.len()
            &&& forall|i: int| 0 <= i < joined.len() ==> same_entry(#[trigger] joined[i], whole[i])
        }),
        pages.len() <= whole.len() + 1,
        truncated ==> pages.len() <= whole.len(),
{
    lemma_collects(ns, q, start, max, whole, false);
    assert forall|i: int| 0 <= i < pages.len() implies #[trigger] is_walk_page(
        ns,
        q,
        start,
        n,
        pages,
        i,
        truncated,
    ) by {
        assert(collects_page(ns, q, start, n, pages, i, truncated));
        lemma_collects(
            ns,
            left_for(q, pages, i),
            start,
            n,
            pages[i],
            i < pages.len() - 1 || truncated,
        );
    }
    law_flat_walk(ns, q, start, n, pages, truncated, max, whole);
}

// ---------------------------------------------------------------------------------------
// Requests and responses
// ---------------------------------------------------------------------------------------

/// A request that was answered: how it was read, the page it came to, the response.
pub struct Exchange {
    pub request: ListRequest,
    pub plan: ListPlan,
    pub page: Page,
    pub out: ListOutput,
}

/// The request was read and its page was sent, by the bucket `bucket` whose files lie below
/// `root`.
pub open spec fn is_exchange(root: Seq<char>, bucket: Seq<char>, x: Exchange) -> bool {
    &&& plans(root, bucket, x.request, x.plan)
    &&& responds(bucket, x.request, x.page, x.out)
}

/// The second request goes on where the first response ends: it hands the token back and asks
/// for the same prefix, delimiter and number of keys.
pub open spec fn goes_on(a: Exchange, b: Exchange) -> bool {
    &&& a.out.next_continuation_token is Some
    &&& b.request.continuation_token == a.out.next_continuation_token
    &&& asked_prefix(b.request) == asked_prefix(a.request)
    &&& asked_delimiter(b.request) == asked_delimiter(a.request)
    &&& asked_keys(b.request) == asked_keys(a.request)
}

/// Exchange `i + 1` goes on where exchange `i` ends.
pub open spec fn goes_on_at(xs: Seq<Exchange>, i: int) -> bool {
    goes_on(xs[i], xs[i + 1])
}

/// A client walks from token to token.
pub open spec fn is_client_walk(root: Seq<char>, bucket: Seq<char>, xs: Seq<Exchange>) -> bool {
    &&& xs.len() > 0
    &&& forall|i: int| 0 <= i < xs.len() ==> is_exchange(root, bucket, #[trigger] xs[i])
    &&& forall|i: int| 0 <= i < xs.len() - 1 ==> #[trigger] goes_on_at(xs, i)
}

/// The keys of the objects in a response, in its order.
pub open spec fn object_keys(out: ListOutput) -> Seq<Seq<char>> {
    match out.contents {
        Some(objects) => Seq::new(objects@.len(), |i: int| objects@[i].key@),
        None => Seq::empty(),
    }
}

/// The CommonPrefixes in a response, in its order.
pub open spec fn prefix_keys(out: ListOutput) -> Seq<Seq<char>> {
    match out.common_prefixes {
        Some(prefixes) => texts(prefixes@),
        None => Seq::empty(),
    }
}

/// The response counts what it holds, within the limit, and carries a token just when it is
/// truncated.
pub open spec fn is_counted(out: ListOutput, limit: int) -> bool {
    &&& out.key_count == object_keys(out).len() + prefix_keys(out).len()
    &&& out.key_count <= limit
    &&& out.is_truncated <==> out.next_continuation_token is Some
}

/// Every request of a walk asks for the same.
proof fn lemma_asks_alike(root: Seq<char>, bucket: Seq<char>, xs: Seq<Exchange>, i: int)
    requires
        is_client_walk(root, bucket, xs),
        0 <= i < xs.len(),
    ensures
        asked_prefix(xs[i].request) == asked_prefix(xs[0].request),
        asked_delimiter(xs[i].request) == asked_delimiter(xs[0].request),
        asked_keys(xs[i].request) == asked_keys(xs[0].request),
        xs[i].plan.prefix@ == xs[0].plan.prefix@,
        view_string(xs[i].plan.delimiter) == view_string(xs[0].plan.delimiter),
        xs[i].plan.max_keys == xs[0].plan.max_keys,
        view_string(xs[i].plan.start) == view_string(xs[0].plan.start),
    decreases i,
{
    assert(is_exchange(root, bucket, xs[0]));
    assert(is_exchange(root, bucket, xs[i]));
    if i > 0 {
        lemma_asks_alike(root, bucket, xs, i - 1);
        assert(goes_on_at(xs, i - 1));
    }
}

/// A token that is handed back resumes after the key that it was made for.
proof fn lemma_resumes(root: Seq<char>, bucket: Seq<char>, xs: Seq<Exchange>, i: int)
    requires
        is_client_walk(root, bucket, xs),
        0 <= i < xs.len() - 1,
    ensures
        xs[i].page.next_token is Some,
        view_string(xs[i + 1].plan.start_after) == view_string(xs[i].page.next_token),
{
    assert(is_exchange(root, bucket, xs[i]));
    assert(is_exchange(root, bucket, xs[i + 1]));
    assert(goes_on_at(xs, i));
    let token = xs[i].out.next_continuation_token->0;
    let key = xs[i].page.next_token->0@;
    law_token_resumes(key, token, xs[i + 1].request, view_string(xs[i + 1].plan.start_after));
}

// ---------------------------------------------------------------------------------------
// Without a delimiter
// ---------------------------------------------------------------------------------------

/// The listing that a plan asks for.
pub open spec fn plan_query(root: Seq<char>, plan: ListPlan) -> Query {
    Query { root, prefix: plan.prefix@, after: view_string(plan.start_after) }
}

/// The request has no delimiter, and its page was collected over the namespace.
pub open spec fn is_flat_exchange(ns: Namespace, root: Seq<char>, x: Exchange) -> bool {
    &&& x.plan.delimiter is None
    &&& pages_entries(x.page.contents@, x.page.is_truncated, x.page)
    &&& match x.plan.start {
        Some(dir) => collects(
            ns,
            plan_query(root, x.plan),
            dir@,
            x.plan.max_keys as nat,
            x.page.contents@,
            x.page.is_truncated,
        ),
        None => x.page.contents@.len() == 0 && !x.page.is_truncated,
    }
}

/// The keys of the objects in the first `i` responses, one response after the other.
pub open spec fn walked_keys(xs: Seq<Exchange>, i: int) -> Seq<Seq<char>>
    decreases i,
{
    if i <= 0 {
        Seq::empty()
    } else {
        walked_keys(xs, i - 1) + object_keys(xs[i - 1].out)
    }
}

/// `key` is that of a file that belongs in the listing `q`.
pub open spec fn is_key_of_file(
    ns: Namespace,
    q: Query,
    start: Seq<char>,
    key: Seq<char>,
) -> bool {
    exists|s: FileStatus| #[trigger] belongs(ns, q, start, s) && key_in(q, s) == key
}

/// The pages behind the responses.
spec fn pages_of(xs: Seq<Exchange>) -> Seq<Seq<ListEntry>> {
    Seq::new(xs.len(), |i: int| xs[i].page.contents@)
}

/// A response shows the keys of its page.
proof fn lemma_object_keys(root: Seq<char>, bucket: Seq<char>, x: Exchange)
    requires
        is_exchange(root, bucket, x),
    ensures
        object_keys(x.out) == keys_of(x.page.contents@),
        prefix_keys(x.out) == texts(x.page.common_prefixes@),
{
    assert(prefix_keys(x.out) =~= texts(x.page.common_prefixes@));
    assert(object_keys(x.out) =~= keys_of(x.page.contents@)) by {
        if let Some(objects) = x.out.contents {
            assert forall|i: int| 0 <= i < objects@.len() implies #[trigger] objects@[i].key@
                == x.page.contents@[i].key@ by {
                assert(summarizes(x.page.contents@[i], objects@[i]));
            }
        }
    }
}

/// The walked keys are those of the joined pages.
proof fn lemma_walked_keys(root: Seq<char>, bucket: Seq<char>, xs: Seq<Exchange>, i: int)
    requires
        is_client_walk(root, bucket, xs),
        0 <= i <= xs.len(),
    ensures
        walked_keys(xs, i) == keys_of(joined_pages(pages_of(xs), i)),
    decreases i,
{
    if i > 0 {
        lemma_walked_keys(root, bucket, xs, i - 1);
        lemma_object_keys(root, bucket, xs[i - 1]);
    }
    assert(walked_keys(xs, i) =~= keys_of(joined_pages(pages_of(xs), i)));
}

/// What a request of a walk without a delimiter asks for.
proof fn lemma_flat_request(
    ns: Namespace,
    root: Seq<char>,
    bucket: Seq<char>,
    xs: Seq<Exchange>,
    i: int,
)
    requires
        is_client_walk(root, bucket, xs),
        forall|i: int| 0 <= i < xs.len() ==> is_flat_exchange(ns, root, #[trigger] xs[i]),
        0 <= i < xs.len(),
    ensures
        plan_query(root, xs[i].plan) == left_for(plan_query(root, xs[0].plan), pages_of(xs), i),
        i < xs.len() - 1 ==> xs[i].page.is_truncated,
{
    lemma_asks_alike(root, bucket, xs, i);
    assert(is_flat_exchange(ns, root, xs[i]));
    if i > 0 {
        lemma_resumes(root, bucket, xs, i - 1);
        assert(is_flat_exchange(ns, root, xs[i - 1]));
    }
    if i < xs.len() - 1 {
        lemma_resumes(root, bucket, xs, i);
    }
}

/// A page of a client walk without a delimiter.
proof fn lemma_flat_client_page(
    ns: Namespace,
    root: Seq<char>,
    bucket: Seq<char>,
    xs: Seq<Exchange>,
    dir: Seq<char>,
    i: int,
)
    requires
        is_namespace(ns),
        is_root(root),
        is_client_walk(root, bucket, xs),
        forall|i: int| 0 <= i < xs.len() ==> is_flat_exchange(ns, root, #[trigger] xs[i]),
        asked_keys(xs[0].request) >= 1,
        view_string(xs[0].plan.start) == Some(dir),
        0 <= i < xs.len(),
    ensures
        is_walk_page(
            ns,
            plan_query(root, xs[0].plan),
            dir,
            asked_keys(xs[0].request) as nat,
            pages_of(xs),
            i,
            xs.last().out.is_truncated,
        ),
{
    lemma_flat_request(ns, root, bucket, xs, i);
    lemma_asks_alike(root, bucket, xs, i);
    assert(is_exchange(root, bucket, xs[i]));
    assert(is_flat_exchange(ns, root, xs[i]));
    let q = plan_query(root, xs[i].plan);
    let n = asked_keys(xs[0].request) as nat;
    let page = xs[i].page;
    assert(xs[i].plan.max_keys as nat == n);
    assert(collects(ns, q, dir, n, page.contents@, page.is_truncated));
    assert(page.is_truncated == (i < xs.len() - 1 || xs.last().out.is_truncated));
    lemma_collects(ns, q, dir, n, page.contents@, page.is_truncated);
}

/// The exchanges of a client walk without a delimiter are a walk through the listing.
proof fn lemma_flat_client_walk(
    ns: Namespace,
    root: Seq<char>,
    bucket: Seq<char>,
    xs: Seq<Exchange>,
    dir: Seq<char>,
)
    requires
        is_namespace(ns),
        is_root(root),
        is_client_walk(root, bucket, xs),
        forall|i: int| 0 <= i < xs.len() ==> is_flat_exchange(ns, root, #[trigger] xs[i]),
        asked_keys(xs[0].request) >= 1,
        view_string(xs[0].plan.start) == Some(dir),
    ensures
        is_flat_walk(
            ns,
            plan_query(root, xs[0].plan),
            dir,
            asked_keys(xs[0].request) as nat,
            pages_of(xs),
            xs.last().out.is_truncated,
        ),
        start_of(root, xs[0].plan.prefix@) == Some(dir),
{
    let q = plan_query(root, xs[0].plan);
    let n = asked_keys(xs[0].request) as nat;
    let pages = pages_of(xs);
    let truncated = xs.last().out.is_truncated;
    assert(is_exchange(root, bucket, xs[0]));
    assert(is_exchange(root, bucket, xs[xs.len() - 1]));
    assert forall|i: int| 0 <= i < pages.len() implies #[trigger] is_walk_page(
        ns,
        q,
        dir,
        n,
        pages,
        i,
        truncated,
    ) by {
        lemma_flat_client_page(ns, root, bucket, xs, dir, i);
    }
}

/// A client that walks through a listing without a delimiter, from token to token, is served
/// every readable file whose key begins with the prefix and sorts after where it began, and
/// nothing else: over all responses the keys strictly climb, and once a response has no token
/// none is missing. Each response counts its objects, keeps the limit, is marked truncated just
/// when it has a token, and the token resumes after its last key. The walk ends: it takes at
/// most one request more than there are files.
pub proof fn law_flat_client_walk(
    ns: Namespace,
    root: Seq<char>,
    bucket: Seq<char>,
    xs: Seq<Exchange>,
)
    requires
        is_namespace(ns),
        is_root(root),
        is_client_walk(root, bucket, xs),
        forall|i: int| 0 <= i < xs.len() ==> is_flat_exchange(ns, root, #[trigger] xs[i]),
        asked_keys(xs[0].request) >= 1,
    ensures
        forall|i: int|
            0 <= i < xs.len() ==> is_counted(
                (#[trigger] xs[i]).out,
                asked_keys(xs[0].request) as int,
            ) && xs[i].out.key_count == object_keys(xs[i].out).len(),
        forall|i: int|
            0 <= i < xs.len() - 1 && #[trigger] goes_on_at(xs, i) ==> view_string(
                xs[i + 1].plan.start_after,
            ) == Some(object_keys(xs[i].out).last()),
        climbing(walked_keys(xs, xs.len() as int)),
        ({
            let q = plan_query(root, xs[0].plan);
            let keys = walked_keys(xs, xs.len() as int);
            let more = xs.last().out.is_truncated;
            match xs[0].plan.start {
                Some(dir) => {
                    &&& forall|k: int|
                        0 <= k < keys.len() ==> is_key_of_file(ns, q, dir@, #[trigger] keys[k])
                    &&& !more ==> forall|s: FileStatus| #[trigger]
                        belongs(ns, q, dir@, s) ==> keys.contains(key_in(q, s))
                    &&& forall|max: nat, whole: Seq<ListEntry>| #[trigger]
                        is_page(ns, q, dir@, max, whole, false) ==> xs.len() <= whole.len() + 1
                            && (more ==> xs.len() <= whole.len())
                },
                None => xs.len() == 1 && keys.len() == 0 && !more,
            }
        }),
{
    let m = xs.len() as int;
    let q = plan_query(root, xs[0].plan);
    let n = asked_keys(xs[0].request) as nat;
    let pages = pages_of(xs);
    let more = xs.last().out.is_truncated;
    let joined = joined_pages(pages, m);
    lemma_walked_keys(root, bucket, xs, m);
    assert(is_exchange(root, bucket, xs[0]));
    assert(is_exchange(root, bucket, xs[m - 1]));
    match xs[0].plan.start {
        Some(dir) => {
            lemma_flat_client_walk(ns, root, bucket, xs, dir@);
            lemma_prefix_not_above(ns, q, dir@);
            lemma_walked(ns, q, dir@, n, pages, more, m);
            let files = choose|f: Seq<FileStatus>| #[trigger]
                is_page_of(ns, q, dir@, (m * n) as nat, f, joined, more);
            let keys = walked_keys(xs, m);
            assert forall|k: int| 0 <= k < keys.len() implies is_key_of_file(
                ns,
                q,
                dir@,
                #[trigger] keys[k],
            ) by {
                assert(describes(root, files[k], joined[k]));
                assert(reached(ns, q, dir@, files[k]));
                law_prefix_directory_reaches_all(ns, q, dir@, files[k]);
            }
            if !more {
                assert forall|s: FileStatus| #[trigger] belongs(ns, q, dir@, s) implies keys.contains(
                    key_in(q, s),
                ) by {
                    law_prefix_directory_reaches_all(ns, q, dir@, s);
                    assert(files.contains(s));
                    let k = choose|k: int| 0 <= k < files.len() && files[k] == s;
                    assert(describes(root, files[k], joined[k]));
                    assert(keys[k] == key_in(q, s));
                }
            }
            assert forall|max: nat, whole: Seq<ListEntry>| #[trigger]
                is_page(ns, q, dir@, max, whole, false) implies xs.len() <= whole.len() + 1 && (more
                ==> xs.len() <= whole.len()) by {
                law_flat_walk(ns, q, dir@, n, pages, more, max, whole);
            }
        },
        None => {
            assert(is_flat_exchange(ns, root, xs[0]));
            if m > 1 {
                lemma_resumes(root, bucket, xs, 0);
            }
            assert(joined_pages(pages, 0) + pages[0] =~= Seq::empty());
            assert(joined_pages(pages, 1) == joined_pages(pages, 0) + pages[0]);
        },
    }
    assert forall|i: int| 0 <= i < xs.len() implies is_counted((#[trigger] xs[i]).out, n as int)
        && xs[i].out.key_count == object_keys(xs[i].out).len() by {
        assert(is_exchange(root, bucket, xs[i]));
        assert(is_flat_exchange(ns, root, xs[i]));
        lemma_asks_alike(root, bucket, xs, i);
        lemma_object_keys(root, bucket, xs[i]);
        if let Some(dir) = xs[i].plan.start {
            let qi = plan_query(root, xs[i].plan);
            lemma_collects(ns, qi, dir@, n, xs[i].page.contents@, xs[i].page.is_truncated);
            let f = choose|f: Seq<FileStatus>| #[trigger]
                is_page_of(ns, qi, dir@, n, f, xs[i].page.contents@, xs[i].page.is_truncated);
        }
    }
    assert forall|i: int| 0 <= i < xs.len() - 1 && #[trigger] goes_on_at(xs, i) implies view_string(
        xs[i + 1].plan.start_after,
    ) == Some(object_keys(xs[i].out).last()) by {
        lemma_resumes(root, bucket, xs, i);
        assert(is_exchange(root, bucket, xs[i]));
        assert(is_flat_exchange(ns, root, xs[i]));
        lemma_object_keys(root, bucket, xs[i]);
    }
}

// ---------------------------------------------------------------------------------------
// With a delimiter
// ---------------------------------------------------------------------------------------

/// An entry of the listed directory is shown under `key`: a file under its own key or under
/// what that collapses into, a directory under the CommonPrefix that holds its keys.
pub open spec fn shown_under(
    root: Seq<char>,
    s: FileStatus,
    prefix: Seq<char>,
    delimiter: Option<Seq<char>>,
    key: Seq<char>,
) -> bool {
    child_key(root, s) matches Some(own) && prefix.is_prefix_of(own) && if s.isdir {
        dir_group(own, prefix, delimiter) == key
    } else {
        match collapsed(own, prefix, delimiter) {
            Some(p) => p == key,
            None => own == key,
        }
    }
}

/// One of the entries is shown under `key`.
pub open spec fn any_shown_under(
    root: Seq<char>,
    statuses: Seq<FileStatus>,
    prefix: Seq<char>,
    delimiter: Option<Seq<char>>,
    key: Seq<char>,
) -> bool {
    exists|s: FileStatus| #[trigger]
        statuses.contains(s) && shown_under(root, s, prefix, delimiter, key)
}

/// A filter keeps nothing twice that is there once.
proof fn lemma_kept_once<A>(s: Seq<A>, p: spec_fn(A) -> bool)
    requires
        s.no_duplicates(),
    ensures
        s.filter(p).no_duplicates(),
    decreases s.len(),
{
    reveal(Seq::filter);
    if s.len() > 0 {
        let front = s.drop_last();
        let f = front.filter(p);
        let w = s.filter(p);
        lemma_kept_once(front, p);
        lemma_filter_members(front, p);
        if p(s.last()) {
            assert forall|i: int, j: int| 0 <= i < j < w.len() implies w[i] != w[j] by {
                if j == f.len() {
                    assert(f.contains(f[i]));
                    let k = choose|k: int| 0 <= k < front.len() && front[k] == f[i];
                    assert(s[k] == w[i] && s[s.len() - 1] == w[j]);
                }
            }
        }
    }
}

/// Which keys directories have.
proof fn lemma_dir_keys(root: Seq<char>, statuses: Seq<FileStatus>, key: Seq<char>)
    ensures
        dir_keys(root, statuses).contains(key) <==> exists|s: FileStatus| #[trigger]
            statuses.contains(s) && s.isdir && child_key(root, s) == Some(key),
    decreases statuses.len(),
{
    if statuses.len() > 0 {
        let front = statuses.drop_last();
        let last = statuses.last();
        let f = dir_keys(root, front);
        let w = dir_keys(root, statuses);
        lemma_dir_keys(root, front, key);
        if w.contains(key) {
            let i = choose|i: int| 0 <= i < w.len() && w[i] == key;
            if i < f.len() {
                assert(f[i] == key);
                let s = choose|s: FileStatus| #[trigger]
                    front.contains(s) && s.isdir && child_key(root, s) == Some(key);
                let j = choose|j: int| 0 <= j < front.len() && front[j] == s;
                assert(statuses[j] == s);
                assert(statuses.contains(s));
            } else {
                assert(statuses[statuses.len() - 1] == last);
                assert(statuses.contains(last));
            }
        }
        if exists|s: FileStatus| #[trigger]
            statuses.contains(s) && s.isdir && child_key(root, s) == Some(key) {
            let s = choose|s: FileStatus| #[trigger]
                statuses.contains(s) && s.isdir && child_key(root, s) == Some(key);
            let j = choose|j: int| 0 <= j < statuses.len() && statuses[j] == s;
            if j < front.len() {
                assert(front[j] == s);
                assert(front.contains(s));
                let i = choose|i: int| 0 <= i < f.len() && f[i] == key;
                assert(w[i] == key);
            } else {
                assert(w[w.len() - 1] == key);
            }
        }
    }
}

/// A level lists the keys that its entries are shown under.
proof fn lemma_level_lists(
    root: Seq<char>,
    statuses: Seq<FileStatus>,
    plan: ListPlan,
    level: Level,
    key: Seq<char>,
)
    requires
        is_level(root, statuses, plan, level),
    ensures
        level.lists_key(key) <==> any_shown_under(
            root,
            statuses,
            plan.prefix@,
            view_string(plan.delimiter),
            key,
        ),
{
    let prefix = level.prefix;
    let delimiter = level.delimiter;
    let files = files_of(root, statuses);
    lemma_filter_members(statuses, |s: FileStatus| !s.isdir && child_key(root, s) is Some);
    if level.lists_key(key) {
        if exists|i: int|
            0 <= i < level.files.len() && prefix.is_prefix_of((#[trigger] level.files[i]).key@)
                && (level.files[i].key@ == key && is_content(key, prefix, delimiter) || collapsed(
                level.files[i].key@,
                prefix,
                delimiter,
            ) == Some(key)) {
            let i = choose|i: int|
                0 <= i < level.files.len() && prefix.is_prefix_of((#[trigger] level.files[i]).key@)
                    && (level.files[i].key@ == key && is_content(key, prefix, delimiter)
                    || collapsed(level.files[i].key@, prefix, delimiter) == Some(key));
            assert(describes(root, files[i], level.files[i]));
            assert(files.contains(files[i]));
            assert(statuses.contains(files[i]));
            assert(shown_under(root, files[i], prefix, delimiter, key));
        } else {
            let i = choose|i: int|
                0 <= i < level.dirs.len() && prefix.is_prefix_of(#[trigger] level.dirs[i])
                    && dir_group(level.dirs[i], prefix, delimiter) == key;
            let own = level.dirs[i];
            assert(level.dirs.contains(own));
            lemma_dir_keys(root, statuses, own);
            let s = choose|s: FileStatus| #[trigger]
                statuses.contains(s) && s.isdir && child_key(root, s) == Some(own);
            assert(shown_under(root, s, prefix, delimiter, key));
        }
    }
    if any_shown_under(root, statuses, prefix, delimiter, key) {
        let s = choose|s: FileStatus| #[trigger]
            statuses.contains(s) && shown_under(root, s, prefix, delimiter, key);
        let own = child_key(root, s)->0;
        if s.isdir {
            lemma_dir_keys(root, statuses, own);
            assert(statuses.contains(s) && s.isdir && child_key(root, s) == Some(own));
            let i = choose|i: int| 0 <= i < level.dirs.len() && level.dirs[i] == own;
            assert(prefix.is_prefix_of(level.dirs[i]));
        } else {
            assert(files.contains(s));
            let i = choose|i: int| 0 <= i < files.len() && files[i] == s;
            assert(describes(root, files[i], level.files[i]));
            assert(level.files[i].key@ == own);
        }
    }
}

/// The names from the root to an entry of a listing that has a key.
proof fn lemma_child_names(
    ns: Namespace,
    root: Seq<Seq<char>>,
    dir: Seq<char>,
    s: FileStatus,
) -> (names: Seq<Seq<char>>)
    requires
        is_namespace(ns),
        all_names(root),
        ns.dom().contains(dir),
        ns[dir].contains(s),
        child_key(abs_path(root), s) is Some,
    ensures
        names.len() > 0,
        all_names(names),
        s.path@ == abs_path(root + names),
        child_key(abs_path(root), s) == Some(join(names, '/')),
{
    let i = choose|i: int| 0 <= i < ns[dir].len() && ns[dir][i] == s;
    assert(is_child(dir, ns[dir][i].path@));
    let (top, name) = choose|top: Seq<Seq<char>>, name: Seq<char>|
        all_names(top) && is_name(name) && dir == abs_path(top) && s.path@ == #[trigger] abs_path(
            top.push(name),
        );
    let path = top.push(name);
    lemma_below_names(root, path);
    let names = path.skip(root.len() as int);
    assert(path =~= root + names);
    assert forall|k: int| 0 <= k < names.len() implies is_name(#[trigger] names[k]) by {
        assert(path[k + root.len()] == names[k]);
    }
    names
}

/// A joined sequence of names does not end in a slash.
proof fn lemma_join_end(names: Seq<Seq<char>>)
    requires
        all_names(names),
        names.len() > 0,
    ensures
        join(names, '/').len() > 0,
        join(names, '/').last() != '/',
{
    let last = names[names.len() - 1];
    assert(is_name(last));
    if last.len() == 0 {
        assert(last =~= Seq::<char>::empty());
    }
    assert(last.contains(last[last.len() - 1]));
    assert(join(names, '/').last() == last.last());
}

/// Two entries of a listing with one key are one entry.
proof fn lemma_key_names_child(
    ns: Namespace,
    root: Seq<Seq<char>>,
    dir: Seq<char>,
    a: FileStatus,
    b: FileStatus,
)
    requires
        is_namespace(ns),
        all_names(root),
        ns.dom().contains(dir),
        ns[dir].contains(a),
        ns[dir].contains(b),
        child_key(abs_path(root), a) is Some,
        child_key(abs_path(root), a) == child_key(abs_path(root), b),
    ensures
        a == b,
{
    let x = lemma_child_names(ns, root, dir, a);
    let y = lemma_child_names(ns, root, dir, b);
    assert forall|k: int| 0 <= k < x.len() implies !(#[trigger] x[k]).contains('/') by {
        assert(is_name(x[k]));
    }
    assert forall|k: int| 0 <= k < y.len() implies !(#[trigger] y[k]).contains('/') by {
        assert(is_name(y[k]));
    }
    lemma_split_join(x, '/');
    lemma_split_join(y, '/');
    let i = choose|i: int| 0 <= i < ns[dir].len() && ns[dir][i] == a;
    let j = choose|j: int| 0 <= j < ns[dir].len() && ns[dir][j] == b;
    if i < j {
        assert(ns[dir][i].path@ != ns[dir][j].path@);
    } else if j < i {
        assert(ns[dir][j].path@ != ns[dir][i].path@);
    }
}

/// `statuses` are an answer to the listing of the plan's directory; a directory that does not
/// exist has nothing in it.
pub open spec fn answers_plan(ns: Namespace, plan: ListPlan, statuses: Seq<FileStatus>) -> bool {
    match plan.start {
        Some(dir) if ns.dom().contains(dir@) => statuses.to_multiset() == ns[dir@].to_multiset(),
        _ => statuses.len() == 0,
    }
}

/// In an answer every key is listed once.
proof fn lemma_answer_lists_once(
    ns: Namespace,
    root: Seq<char>,
    plan: ListPlan,
    statuses: Seq<FileStatus>,
    level: Level,
)
    requires
        is_namespace(ns),
        is_root(root),
        answers_plan(ns, plan, statuses),
        is_level(root, statuses, plan, level),
        view_string(plan.delimiter) matches Some(d) && d.len() > 0,
    ensures
        level.lists_once(),
{
    broadcast use vstd::seq_lib::group_to_multiset_ensures;

    let files = files_of(root, statuses);
    let kept = |s: FileStatus| !s.isdir && child_key(root, s) is Some;
    lemma_filter_members(statuses, kept);
    if statuses.len() == 0 {
        if level.files.len() > 0 {
            assert(files.contains(files[0]));
        }
    } else {
        let names = choose|names: Seq<Seq<char>>| #[trigger] all_names(names) && root == abs_path(
            names,
        );
        let dir = plan.start->0@;
        let all = ns[dir];
        assert(all.no_duplicates()) by {
            assert forall|i: int, j: int| 0 <= i < j < all.len() implies all[i] != all[j] by {
                assert(ns[dir][i].path@ != ns[dir][j].path@);
            }
        }
        all.lemma_multiset_has_no_duplicates();
        statuses.lemma_multiset_has_no_duplicates_conv();
        lemma_kept_once(statuses, kept);
        assert forall|i: int| 0 <= i < files.len() implies ns[dir].contains(#[trigger] files[i])
            && child_key(root, files[i]) == Some(level.files[i].key@) by {
            assert(files.contains(files[i]));
            assert(statuses.contains(files[i]));
            assert(all.to_multiset().count(files[i]) > 0);
            assert(describes(root, files[i], level.files[i]));
        }
        assert forall|i: int| 0 <= i < level.files.len() implies (#[trigger] level.files[i]).key@.len()
            > 0 && level.files[i].key@.last() != '/' by {
            let x = lemma_child_names(ns, names, dir, files[i]);
            lemma_join_end(x);
        }
        assert forall|i: int, j: int| 0 <= i < j < level.files.len() implies (
        #[trigger] level.files[i]).key@ != (#[trigger] level.files[j]).key@ by {
            if level.files[i].key@ == level.files[j].key@ {
                lemma_key_names_child(ns, names, dir, files[i], files[j]);
            }
        }
    }
    law_delimited_lists_once(level);
}

/// The keys that the entries of the directory `start` are shown under.
pub open spec fn keys_shown(
    ns: Namespace,
    root: Seq<char>,
    prefix: Seq<char>,
    delimiter: Option<Seq<char>>,
    start: Option<Seq<char>>,
) -> spec_fn(Seq<char>) -> bool {
    |key: Seq<char>|
        start matches Some(dir) && ns.dom().contains(dir) && any_shown_under(
            root,
            ns[dir],
            prefix,
            delimiter,
            key,
        )
}

/// The keys that a plan with a delimiter lists.
pub open spec fn plan_keys(
    ns: Namespace,
    root: Seq<char>,
    plan: ListPlan,
) -> spec_fn(Seq<char>) -> bool {
    keys_shown(ns, root, plan.prefix@, view_string(plan.delimiter), view_string(plan.start))
}

/// The page was made from an answer to the listing of the plan's directory.
pub open spec fn pages_answer(ns: Namespace, root: Seq<char>, plan: ListPlan, page: Page) -> bool {
    exists|statuses: Seq<FileStatus>| #[trigger]
        answers_plan(ns, plan, statuses) && pages_statuses(root, statuses, plan, page)
}

/// The request has a delimiter, and its page was made from one listing.
pub open spec fn is_level_exchange(ns: Namespace, root: Seq<char>, x: Exchange) -> bool {
    &&& x.plan.delimiter is Some
    &&& pages_answer(ns, root, x.plan, x.page)
}

/// A response shows the key as that of an object or a CommonPrefix.
pub open spec fn out_shows(out: ListOutput, key: Seq<char>) -> bool {
    object_keys(out).contains(key) || prefix_keys(out).contains(key)
}

/// What response `i` of a walk serves of `keys`, `n` at a time.
pub open spec fn served(keys: Seq<Seq<char>>, n: nat, i: int) -> Seq<Seq<char>> {
    first_keys(keys.skip(i * n), n)
}

/// What an answer in whatever order shows.
proof fn lemma_answer_shows(
    ns: Namespace,
    root: Seq<char>,
    plan: ListPlan,
    statuses: Seq<FileStatus>,
    key: Seq<char>,
)
    requires
        answers_plan(ns, plan, statuses),
    ensures
        any_shown_under(root, statuses, plan.prefix@, view_string(plan.delimiter), key)
            <==> plan_keys(ns, root, plan)(key),
{
    broadcast use vstd::seq_lib::group_to_multiset_ensures;

    let prefix = plan.prefix@;
    let delimiter = view_string(plan.delimiter);
    if any_shown_under(root, statuses, prefix, delimiter, key) {
        let s = choose|s: FileStatus| #[trigger]
            statuses.contains(s) && shown_under(root, s, prefix, delimiter, key);
        let all = ns[plan.start->0@];
        assert(statuses.to_multiset().count(s) > 0);
        assert(all.contains(s));
    }
    if plan_keys(ns, root, plan)(key) {
        let all = ns[plan.start->0@];
        let s = choose|s: FileStatus| #[trigger]
            all.contains(s) && shown_under(root, s, prefix, delimiter, key);
        assert(all.to_multiset().count(s) > 0);
        assert(statuses.contains(s));
    }
}

/// What the page of a request with a delimiter shows.
proof fn lemma_level_page(ns: Namespace, root: Seq<char>, bucket: Seq<char>, x: Exchange) -> (keys:
    Seq<Seq<char>>)
    requires
        is_namespace(ns),
        is_root(root),
        is_exchange(root, bucket, x),
        is_level_exchange(ns, root, x),
    ensures
        are_keys(plan_keys(ns, root, x.plan), view_string(x.plan.start_after), keys),
        shows_first(x.page, keys, x.plan.max_keys as nat),
{
    let plan = x.plan;
    let marker = view_string(plan.start_after);
    let statuses = choose|statuses: Seq<FileStatus>| #[trigger]
        answers_plan(ns, plan, statuses) && pages_statuses(root, statuses, plan, x.page);
    let level = choose|level: Level|
        is_level(root, statuses, plan, level) && #[trigger] level.pages(
            marker,
            plan.max_keys as nat,
            x.page,
        );
    lemma_answer_lists_once(ns, root, plan, statuses, level);
    let keys = law_page_shows_first_keys(level, marker, plan.max_keys as nat, x.page);
    assert forall|key: Seq<char>| #[trigger] keys.contains(key) <==> plan_keys(ns, root, plan)(key)
        && past(marker, key) by {
        lemma_level_lists(root, statuses, plan, level, key);
        lemma_answer_shows(ns, root, plan, statuses, key);
        let listed = |key: Seq<char>| level.lists_key(key);
        assert(keys.contains(key) <==> listed(key) && past(marker, key));
    }
    keys
}

/// What is left of the keys for request `i` of a walk, and that its page shows the first of it.
proof fn lemma_level_walk(
    ns: Namespace,
    root: Seq<char>,
    bucket: Seq<char>,
    xs: Seq<Exchange>,
    keys: Seq<Seq<char>>,
    n: nat,
    i: int,
)
    requires
        is_namespace(ns),
        is_root(root),
        is_client_walk(root, bucket, xs),
        forall|k: int| 0 <= k < xs.len() ==> is_level_exchange(ns, root, #[trigger] xs[k]),
        n >= 1,
        xs[0].plan.max_keys == n,
        are_keys(plan_keys(ns, root, xs[0].plan), view_string(xs[0].plan.start_after), keys),
        shows_first(xs[0].page, keys, n),
        0 <= i < xs.len(),
    ensures
        0 <= i * n <= keys.len(),
        i <= i * n,
        are_keys(
            plan_keys(ns, root, xs[0].plan),
            view_string(xs[i].plan.start_after),
            keys.skip(i * n),
        ),
        shows_first(xs[i].page, keys.skip(i * n), n),
    decreases i,
{
    if i == 0 {
        assert(0 * n == 0);
        assert(keys.skip(0) =~= keys);
    } else {
        let m = i - 1;
        lemma_level_walk(ns, root, bucket, xs, keys, n, m);
        lemma_resumes(root, bucket, xs, m);
        lemma_asks_alike(root, bucket, xs, i);
        let left = keys.skip(m * n);
        assert(left.take(n as int).last() == left[n - 1]);
        assert(is_exchange(root, bucket, xs[i]));
        assert(is_level_exchange(ns, root, xs[i]));
        let rest = lemma_level_page(ns, root, bucket, xs[i]);
        lemma_keys_after(
            plan_keys(ns, root, xs[0].plan),
            view_string(xs[m].plan.start_after),
            left,
            n as int,
            rest,
        );
        assert(m * n + n == i * n) by (nonlinear_arith)
            requires
                m == i - 1,
        ;
        assert(left.skip(n as int) =~= keys.skip(i * n));
    }
}

/// What each response of a walk serves.
proof fn lemma_level_response(
    ns: Namespace,
    root: Seq<char>,
    bucket: Seq<char>,
    xs: Seq<Exchange>,
    keys: Seq<Seq<char>>,
    n: nat,
    i: int,
)
    requires
        is_namespace(ns),
        is_root(root),
        is_client_walk(root, bucket, xs),
        forall|k: int| 0 <= k < xs.len() ==> is_level_exchange(ns, root, #[trigger] xs[k]),
        n >= 1,
        xs[0].plan.max_keys == n,
        are_keys(plan_keys(ns, root, xs[0].plan), view_string(xs[0].plan.start_after), keys),
        shows_first(xs[0].page, keys, n),
        0 <= i < xs.len(),
    ensures
        0 <= i * n <= keys.len(),
        i <= i * n,
        is_counted(xs[i].out, n as int),
        xs[i].out.key_count == served(keys, n, i).len(),
        forall|key: Seq<char>| #[trigger]
            out_shows(xs[i].out, key) <==> served(keys, n, i).contains(key),
        xs[i].out.is_truncated <==> i * n + n < keys.len(),
        i < xs.len() - 1 ==> view_string(xs[i + 1].plan.start_after) == Some(
            served(keys, n, i).last(),
        ),
{
    lemma_level_walk(ns, root, bucket, xs, keys, n, i);
    assert(is_exchange(root, bucket, xs[i]));
    lemma_object_keys(root, bucket, xs[i]);
    let left = keys.skip(i * n);
    let page = xs[i].page;
    assert(texts(page.common_prefixes@).len() == page.common_prefixes@.len());
    assert forall|key: Seq<char>| #[trigger] out_shows(xs[i].out, key) <==> served(
        keys,
        n,
        i,
    ).contains(key) by {
        assert(page_shows(page, key) <==> first_keys(left, n).contains(key));
    }
    if i < xs.len() - 1 {
        lemma_resumes(root, bucket, xs, i);
    }
}

/// A client that walks through a listing with a delimiter, from token to token, is served every
/// key that the entries of the prefix's directory are shown under and that sorts after where it
/// began, and nothing else: as many at a time as it asks for, in key order, each once. Objects
/// and CommonPrefixes count alike, and every key of a response sorts before those of later
/// responses. Each response counts what it holds, keeps the limit, is marked truncated just when
/// it has a token, and the token resumes after its last key. The walk ends: it takes at most one
/// request more than there are keys.
pub proof fn law_delimited_client_walk(
    ns: Namespace,
    root: Seq<char>,
    bucket: Seq<char>,
    xs: Seq<Exchange>,
) -> (keys: Seq<Seq<char>>)
    requires
        is_namespace(ns),
        is_root(root),
        is_client_walk(root, bucket, xs),
        forall|i: int| 0 <= i < xs.len() ==> is_level_exchange(ns, root, #[trigger] xs[i]),
        asked_keys(xs[0].request) >= 1,
    ensures
        are_keys(plan_keys(ns, root, xs[0].plan), view_string(xs[0].plan.start_after), keys),
        ({
            let n = asked_keys(xs[0].request) as nat;
            &&& forall|i: int|
                0 <= i < xs.len() ==> {
                    let out = (#[trigger] xs[i]).out;
                    let part = served(keys, n, i);
                    &&& 0 <= i * n <= keys.len()
                    &&& is_counted(out, n as int)
                    &&& out.key_count == part.len()
                    &&& forall|key: Seq<char>| #[trigger] out_shows(out, key) <==> part.contains(key)
                    &&& out.is_truncated <==> i * n + n < keys.len()
                }
            &&& forall|i: int|
                0 <= i < xs.len() - 1 && #[trigger] goes_on_at(xs, i) ==> view_string(
                    xs[i + 1].plan.start_after,
                ) == Some(served(keys, n, i).last())
        }),
        forall|i: int, j: int, a: Seq<char>, b: Seq<char>|
            0 <= i < j < xs.len() && #[trigger] out_shows(xs[i].out, a) && #[trigger] out_shows(
                xs[j].out,
                b,
            ) ==> key_lt(a, b),
        xs.len() <= keys.len() + 1,
        xs.last().out.is_truncated ==> xs.len() <= keys.len(),
{
    let n = asked_keys(xs[0].request) as nat;
    assert(is_exchange(root, bucket, xs[0]));
    assert(is_level_exchange(ns, root, xs[0]));
    let keys = lemma_level_page(ns, root, bucket, xs[0]);
    assert forall|i: int| 0 <= i < xs.len() implies {
        let out = (#[trigger] xs[i]).out;
        let part = served(keys, n, i);
        &&& 0 <= i * n <= keys.len()
        &&& is_counted(out, n as int)
        &&& out.key_count == part.len()
        &&& forall|key: Seq<char>| #[trigger] out_shows(out, key) <==> part.contains(key)
        &&& out.is_truncated <==> i * n + n < keys.len()
    } by {
        lemma_level_response(ns, root, bucket, xs, keys, n, i);
    }
    assert forall|i: int| 0 <= i < xs.len() - 1 && #[trigger] goes_on_at(xs, i) implies view_string(
        xs[i + 1].plan.start_after,
    ) == Some(served(keys, n, i).last()) by {
        lemma_level_response(ns, root, bucket, xs, keys, n, i);
    }
    assert forall|i: int, j: int, a: Seq<char>, b: Seq<char>|
        0 <= i < j < xs.len() && #[trigger] out_shows(xs[i].out, a) && #[trigger] out_shows(
            xs[j].out,
            b,
        ) implies key_lt(a, b) by {
        lemma_level_response(ns, root, bucket, xs, keys, n, i);
        lemma_level_response(ns, root, bucket, xs, keys, n, j);
        lemma_served_in_turn(keys, n, i, j, a, b);
    }
    lemma_level_response(ns, root, bucket, xs, keys, n, xs.len() - 1);
    keys
}

/// Keys that are served earlier sort before those served later.
proof fn lemma_served_in_turn(
    keys: Seq<Seq<char>>,
    n: nat,
    i: int,
    j: int,
    a: Seq<char>,
    b: Seq<char>,
)
    requires
        climbing(keys),
        0 <= i < j,
        0 <= i * n <= keys.len(),
        0 <= j * n <= keys.len(),
        served(keys, n, i).contains(a),
        served(keys, n, j).contains(b),
    ensures
        key_lt(a, b),
{
    let x = served(keys, n, i);
    let y = served(keys, n, j);
    let p = choose|p: int| 0 <= p < x.len() && x[p] == a;
    let q = choose|q: int| 0 <= q < y.len() && y[q] == b;
    assert(i * n + n <= j * n) by (nonlinear_arith)
        requires
            i < j,
            n >= 0,
    ;
    assert(x[p] == keys[i * n + p]);
    assert(y[q] == keys[j * n + q]);
}

// ---------------------------------------------------------------------------------------
// What is listed, in plain terms
// ---------------------------------------------------------------------------------------

/// A file below the prefix's directory, of whatever length and time, whose key begins with the
/// prefix and sorts after the marker, is on a flat page, with its size and time, unless the page
/// is truncated before it.
pub proof fn law_flat_page_holds_files(
    ns: Namespace,
    q: Query,
    start: Seq<char>,
    n: nat,
    entries: Seq<ListEntry>,
    truncated: bool,
    names: Seq<Seq<char>>,
    below: Seq<Seq<char>>,
    s: FileStatus,
    key: Seq<char>,
)
    requires
        is_namespace(ns),
        is_root(q.root),
        start_of(q.root, q.prefix) == Some(start),
        collects(ns, q, start, n, entries, truncated),
        all_names(names),
        start == abs_path(names),
        found(ns, names, below, s),
        !s.isdir,
        key_of_path(q.root, s.path@) == Some(key),
        q.prefix.is_prefix_of(key),
        q.after matches Some(marker) ==> key_lt(marker, key),
    ensures
        !truncated ==> exists|j: int|
            0 <= j < entries.len() && (#[trigger] entries[j]).key@ == key && entries[j].size
                == s.length && entries[j].modification_time == s.modification_time,
        truncated ==> (exists|j: int|
            0 <= j < entries.len() && (#[trigger] entries[j]).key@ == key && entries[j].size
                == s.length && entries[j].modification_time == s.modification_time) || forall|j: int|
            0 <= j < entries.len() ==> key_lt((#[trigger] entries[j]).key@, key),
{
    lemma_collects(ns, q, start, n, entries, truncated);
    let files = choose|f: Seq<FileStatus>| #[trigger]
        is_page_of(ns, q, start, n, f, entries, truncated);
    assert(q.wants(s));
    assert(belongs(ns, q, start, s));
    law_prefix_directory_reaches_all(ns, q, start, s);
    if files.contains(s) {
        let j = choose|j: int| 0 <= j < files.len() && files[j] == s;
        assert(describes(q.root, files[j], entries[j]));
        assert(entries[j].key@ == key);
    }
}

/// Every entry of a flat page is a file below the start directory, as it is there.
pub proof fn law_flat_entries_have_a_source(
    ns: Namespace,
    q: Query,
    start: Seq<char>,
    n: nat,
    entries: Seq<ListEntry>,
    truncated: bool,
    j: int,
) -> (source: (Seq<Seq<char>>, Seq<Seq<char>>, FileStatus))
    requires
        is_namespace(ns),
        is_root(q.root),
        collects(ns, q, start, n, entries, truncated),
        0 <= j < entries.len(),
    ensures
        start == abs_path(source.0),
        found(ns, source.0, source.1, source.2),
        !source.2.isdir,
        key_of_path(q.root, source.2.path@) == Some(entries[j].key@),
        q.prefix.is_prefix_of(entries[j].key@),
        q.after matches Some(marker) ==> key_lt(marker, entries[j].key@),
        entries[j].size == source.2.length,
        entries[j].modification_time == source.2.modification_time,
{
    lemma_collects(ns, q, start, n, entries, truncated);
    let files = choose|f: Seq<FileStatus>| #[trigger]
        is_page_of(ns, q, start, n, f, entries, truncated);
    assert(describes(q.root, files[j], entries[j]));
    assert(reached(ns, q, start, files[j]));
    let (top, below) = choose|top: Seq<Seq<char>>, below: Seq<Seq<char>>|
        all_names(top) && start == abs_path(top) && #[trigger] found(ns, top, below, files[j])
            && way_open(q, top, below);
    (top, below, files[j])
}

/// A flat page comes in key order, each key once; it holds no more than it may, and exactly that
/// many if it is truncated.
pub proof fn law_flat_page_order(
    ns: Namespace,
    q: Query,
    start: Seq<char>,
    n: nat,
    entries: Seq<ListEntry>,
    truncated: bool,
    i: int,
    j: int,
)
    requires
        is_namespace(ns),
        is_root(q.root),
        collects(ns, q, start, n, entries, truncated),
        0 <= i < j < entries.len(),
    ensures
        key_lt(entries[i].key@, entries[j].key@),
        entries.len() <= n,
        truncated ==> entries.len() == n,
{
    lemma_collects(ns, q, start, n, entries, truncated);
    let files = choose|f: Seq<FileStatus>| #[trigger]
        is_page_of(ns, q, start, n, f, entries, truncated);
}

/// A flat page keeps its limit, also if it is empty, and is truncated only if some file below the
/// start directory that it could have shown sorts after all that it shows.
pub proof fn law_flat_page_is_truncated_for_a_reason(
    ns: Namespace,
    q: Query,
    start: Seq<char>,
    n: nat,
    entries: Seq<ListEntry>,
    truncated: bool,
) -> (next: FileStatus)
    requires
        is_namespace(ns),
        is_root(q.root),
        collects(ns, q, start, n, entries, truncated),
    ensures
        entries.len() <= n,
        truncated ==> {
            &&& entries.len() == n
            &&& !next.isdir
            &&& key_of_path(q.root, next.path@) matches Some(key) && q.prefix.is_prefix_of(key) && (
            q.after matches Some(marker) ==> key_lt(marker, key)) && forall|j: int|
                0 <= j < entries.len() ==> key_lt((#[trigger] entries[j]).key@, key)
        },
{
    lemma_collects(ns, q, start, n, entries, truncated);
    let files = choose|f: Seq<FileStatus>| #[trigger]
        is_page_of(ns, q, start, n, f, entries, truncated);
    choose|s: FileStatus| #[trigger] reached(ns, q, start, s) && !files.contains(s)
}

/// What is listed goes by place, kind and key alone: of two files in one place, of whatever
/// lengths and times, both are listed or neither is.
pub proof fn law_lengths_do_not_matter(q: Query, a: FileStatus, b: FileStatus)
    requires
        a.path@ == b.path@,
        a.isdir == b.isdir,
    ensures
        q.wants(a) == q.wants(b),
        q.opens(a) == q.opens(b),
{
}

/// A response without a delimiter that is not truncated, to a request without a token, shows every
/// file below the prefix's directory whose key begins with the prefix and sorts after the key
/// that the request names: its key, size and time.
pub proof fn law_flat_response_holds_files(
    ns: Namespace,
    root: Seq<char>,
    bucket: Seq<char>,
    x: Exchange,
    dir: String,
    names: Seq<Seq<char>>,
    below: Seq<Seq<char>>,
    s: FileStatus,
    key: Seq<char>,
)
    requires
        is_namespace(ns),
        is_root(root),
        is_exchange(root, bucket, x),
        is_flat_exchange(ns, root, x),
        x.request.continuation_token is None,
        !x.out.is_truncated,
        x.plan.start == Some(dir),
        all_names(names),
        dir@ == abs_path(names),
        found(ns, names, below, s),
        !s.isdir,
        key_of_path(root, s.path@) == Some(key),
        x.request.prefix matches Some(prefix) ==> prefix@.is_prefix_of(key),
        x.request.start_after matches Some(marker) ==> key_lt(marker@, key),
    ensures
        x.out.contents matches Some(objects) && exists|j: int|
            0 <= j < objects@.len() && (#[trigger] objects@[j]).key@ == key && objects@[j].size
                == s.length && objects@[j].last_modified == s.modification_time,
{
    let q = plan_query(root, x.plan);
    let entries = x.page.contents@;
    law_flat_page_holds_files(
        ns,
        q,
        dir@,
        x.plan.max_keys as nat,
        entries,
        false,
        names,
        below,
        s,
        key,
    );
    let j = choose|j: int|
        0 <= j < entries.len() && (#[trigger] entries[j]).key@ == key && entries[j].size == s.length
            && entries[j].modification_time == s.modification_time;
    let objects = x.out.contents->0;
    assert(summarizes(entries[j], objects@[j]));
    assert(objects@[j].key@ == key);
}

/// A walk without a delimiter that has come to its end has shown every file below the prefix's
/// directory whose key begins with the prefix and sorts after where the walk began.
pub proof fn law_flat_walk_serves_files(
    ns: Namespace,
    root: Seq<char>,
    bucket: Seq<char>,
    xs: Seq<Exchange>,
    dir: String,
    names: Seq<Seq<char>>,
    below: Seq<Seq<char>>,
    s: FileStatus,
    key: Seq<char>,
)
    requires
        is_namespace(ns),
        is_root(root),
        is_client_walk(root, bucket, xs),
        forall|i: int| 0 <= i < xs.len() ==> is_flat_exchange(ns, root, #[trigger] xs[i]),
        asked_keys(xs[0].request) >= 1,
        xs.last().out.next_continuation_token is None,
        xs[0].request.continuation_token is None,
        xs[0].plan.start == Some(dir),
        all_names(names),
        dir@ == abs_path(names),
        found(ns, names, below, s),
        !s.isdir,
        key_of_path(root, s.path@) == Some(key),
        xs[0].request.prefix matches Some(prefix) ==> prefix@.is_prefix_of(key),
        xs[0].request.start_after matches Some(marker) ==> key_lt(marker@, key),
    ensures
        walked_keys(xs, xs.len() as int).contains(key),
{
    law_flat_client_walk(ns, root, bucket, xs);
    let m = xs.len() as int;
    assert(is_counted(xs[m - 1].out, asked_keys(xs[0].request) as int));
    assert(is_exchange(root, bucket, xs[0]));
    let q = plan_query(root, xs[0].plan);
    assert(q.prefix.is_prefix_of(key)) by {
        if xs[0].request.prefix is None {
            assert(q.prefix =~= key.subrange(0, 0));
        }
    }
    assert(q.wants(s));
    assert(belongs(ns, q, dir@, s));
    assert(key_in(q, s) == key);
}

/// What is served is served by some response, if the walk came to its end.
proof fn lemma_served_somewhere(keys: Seq<Seq<char>>, n: nat, count: int, p: int) -> (i: int)
    requires
        n >= 1,
        0 <= p < keys.len(),
        keys.len() <= count * n,
    ensures
        0 <= i < count,
        0 <= i * n <= keys.len(),
        served(keys, n, i).contains(keys[p]),
{
    let i = p / n as int;
    assert(0 <= i && i * n <= p < i * n + n && i < count) by (nonlinear_arith)
        requires
            n >= 1,
            p >= 0,
            p < count * n,
            i == p / n as int,
    ;
    let left = keys.skip(i * n);
    let part = served(keys, n, i);
    assert(part[p - i * n] == keys[p]);
    i
}

/// A walk with a delimiter that has come to its end has shown everything in the prefix's directory
/// that begins with the prefix and sorts after where the walk began: a file without the delimiter
/// after the prefix as itself, and any other file or directory as its CommonPrefix.
pub proof fn law_delimited_walk_serves_everything(
    ns: Namespace,
    root: Seq<char>,
    bucket: Seq<char>,
    xs: Seq<Exchange>,
    dir: String,
    delimiter: String,
    prefix: Seq<char>,
    s: FileStatus,
    shown: Seq<char>,
) -> (i: int)
    requires
        is_namespace(ns),
        is_root(root),
        is_client_walk(root, bucket, xs),
        forall|i: int| 0 <= i < xs.len() ==> is_level_exchange(ns, root, #[trigger] xs[i]),
        asked_keys(xs[0].request) >= 1,
        xs.last().out.next_continuation_token is None,
        xs[0].request.continuation_token is None,
        xs[0].request.prefix matches Some(p) ==> prefix == p@,
        xs[0].request.prefix is None ==> prefix.len() == 0,
        xs[0].request.delimiter == Some(delimiter),
        delimiter@.len() > 0,
        xs[0].plan.start == Some(dir),
        ns.dom().contains(dir@),
        ns[dir@].contains(s),
        is_group_of_status(root, s, prefix, delimiter@, shown) || !s.isdir && key_of_path(
            root,
            s.path@,
        ) == Some(shown) && shown.len() > 0 && prefix.is_prefix_of(shown) && !is_marked(
            shown,
            prefix,
            delimiter@,
        ),
        xs[0].request.start_after matches Some(marker) ==> key_lt(marker@, shown),
    ensures
        0 <= i < xs.len(),
        out_shows(xs[i].out, shown),
{
    let keys = law_delimited_client_walk(ns, root, bucket, xs);
    let n = asked_keys(xs[0].request) as nat;
    let m = xs.len() as int;
    let last = xs[m - 1];
    assert(is_exchange(root, bucket, xs[0]));
    assert(is_counted(last.out, n as int));
    assert(prefix =~= xs[0].plan.prefix@);
    let d = delimiter@;
    let own = child_key(root, s)->0;
    let lead = if s.isdir {
        own.push('/')
    } else {
        own
    };
    assert(lead.subrange(0, prefix.len() as int) =~= own.subrange(0, prefix.len() as int));
    lemma_marked(lead, prefix, d);
    if is_group_of_status(root, s, prefix, d, shown) {
        if is_cut_at(lead, prefix, d, shown) {
            let (a, b) = choose|a: Seq<char>, b: Seq<char>|
                lead == #[trigger] (prefix + a + d + b) && shown == prefix + a + d
                    && crate::listing::is_shortest(lead, prefix, d, a);
            assert(is_marked(lead, prefix, d));
            lemma_cut_unique(lead, prefix, d, shown, crate::listing::group_of(lead, prefix, d)->0);
        }
    }
    assert(shown_under(root, s, prefix, Some(d), shown));
    assert(any_shown_under(root, ns[dir@], prefix, Some(d), shown));
    assert(plan_keys(ns, root, xs[0].plan)(shown));
    assert(keys.contains(shown));
    let p = choose|p: int| 0 <= p < keys.len() && keys[p] == shown;
    assert((m - 1) * n + n == m * n) by (nonlinear_arith);
    let i = lemma_served_somewhere(keys, n, m, p);
    assert(out_shows(xs[i].out, shown) <==> served(keys, n, i).contains(shown));
    i
}

/// Whatever a walk with a delimiter shows is in the prefix's directory and begins with the prefix:
/// a file without the delimiter after the prefix, or the CommonPrefix of a file or a directory.
pub proof fn law_delimited_walk_shows_nothing_else(
    ns: Namespace,
    root: Seq<char>,
    bucket: Seq<char>,
    xs: Seq<Exchange>,
    delimiter: String,
    prefix: Seq<char>,
    i: int,
    shown: Seq<char>,
) -> (source: (String, FileStatus))
    requires
        is_namespace(ns),
        is_root(root),
        is_client_walk(root, bucket, xs),
        forall|i: int| 0 <= i < xs.len() ==> is_level_exchange(ns, root, #[trigger] xs[i]),
        asked_keys(xs[0].request) >= 1,
        xs[0].request.continuation_token is None,
        xs[0].request.prefix matches Some(p) ==> prefix == p@,
        xs[0].request.prefix is None ==> prefix.len() == 0,
        xs[0].request.delimiter == Some(delimiter),
        delimiter@.len() > 0,
        0 <= i < xs.len(),
        out_shows(xs[i].out, shown),
    ensures
        xs[0].request.start_after matches Some(marker) ==> key_lt(marker@, shown),
        xs[0].plan.start == Some(source.0),
        ns.dom().contains(source.0@),
        ns[source.0@].contains(source.1),
        is_group_of_status(root, source.1, prefix, delimiter@, shown) || !source.1.isdir
            && key_of_path(root, source.1.path@) == Some(shown) && prefix.is_prefix_of(shown)
            && !is_marked(shown, prefix, delimiter@),
{
    let keys = law_delimited_client_walk(ns, root, bucket, xs);
    let n = asked_keys(xs[0].request) as nat;
    assert(is_exchange(root, bucket, xs[0]));
    assert(prefix =~= xs[0].plan.prefix@);
    let part = served(keys, n, i);
    assert(out_shows(xs[i].out, shown) <==> part.contains(shown));
    let k = choose|k: int| 0 <= k < part.len() && part[k] == shown;
    assert(0 <= i * n <= keys.len());
    assert(keys[i * n + k] == shown);
    assert(keys.contains(shown));
    let dir = xs[0].plan.start->0;
    let d = delimiter@;
    assert(any_shown_under(root, ns[dir@], prefix, Some(d), shown));
    let s = choose|s: FileStatus| #[trigger]
        ns[dir@].contains(s) && shown_under(root, s, prefix, Some(d), shown);
    let own = child_key(root, s)->0;
    let lead = if s.isdir {
        own.push('/')
    } else {
        own
    };
    assert(lead.subrange(0, prefix.len() as int) =~= own.subrange(0, prefix.len() as int));
    lemma_marked(lead, prefix, d);
    (dir, s)
}

/// Files with keys of their own keep them.
proof fn lemma_files_apart(root: Seq<char>, statuses: Seq<FileStatus>)
    requires
        forall|i: int, j: int|
            0 <= i < j < statuses.len() && !(#[trigger] statuses[i]).isdir && !(
            #[trigger] statuses[j]).isdir && key_of_path(root, statuses[i].path@) is Some
                ==> key_of_path(root, statuses[i].path@) != key_of_path(root, statuses[j].path@),
    ensures
        forall|i: int, j: int|
            0 <= i < j < files_of(root, statuses).len() ==> child_key(
                root,
                #[trigger] files_of(root, statuses)[i],
            ) != child_key(root, #[trigger] files_of(root, statuses)[j]),
    decreases statuses.len(),
{
    reveal(Seq::filter);
    if statuses.len() > 0 {
        let front = statuses.drop_last();
        let last = statuses.last();
        assert forall|i: int, j: int|
            0 <= i < j < front.len() && !(#[trigger] front[i]).isdir && !(#[trigger] front[j]).isdir
                && key_of_path(root, front[i].path@) is Some implies key_of_path(
            root,
            front[i].path@,
        ) != key_of_path(root, front[j].path@) by {
            assert(front[i] == statuses[i] && front[j] == statuses[j]);
        }
        lemma_files_apart(root, front);
        let f = files_of(root, front);
        let w = files_of(root, statuses);
        lemma_filter_members(front, |s: FileStatus| !s.isdir && child_key(root, s) is Some);
        assert forall|i: int, j: int| 0 <= i < j < w.len() implies child_key(root, #[trigger] w[i])
            != child_key(root, #[trigger] w[j]) by {
            if j < f.len() {
                assert(w[i] == f[i] && w[j] == f[j]);
            } else {
                assert(w[i] == f[i] && w[j] == last);
                assert(f.contains(f[i]));
                assert(front.contains(f[i]));
                let k = choose|k: int| 0 <= k < front.len() && front[k] == f[i];
                assert(statuses[k] == f[i] && statuses[statuses.len() - 1] == last);
            }
        }
    }
}

/// In a listing of files with keys of their own every key is listed once.
proof fn lemma_listing_lists_once(
    root: Seq<char>,
    statuses: Seq<FileStatus>,
    plan: ListPlan,
    level: Level,
)
    requires
        is_root(root),
        is_level(root, statuses, plan, level),
        view_string(plan.delimiter) matches Some(d) && d.len() > 0,
        forall|i: int, j: int|
            0 <= i < j < statuses.len() && !(#[trigger] statuses[i]).isdir && !(
            #[trigger] statuses[j]).isdir && key_of_path(root, statuses[i].path@) is Some
                ==> key_of_path(root, statuses[i].path@) != key_of_path(root, statuses[j].path@),
    ensures
        level.lists_once(),
{
    let files = files_of(root, statuses);
    lemma_files_apart(root, statuses);
    lemma_filter_members(statuses, |s: FileStatus| !s.isdir && child_key(root, s) is Some);
    assert forall|i: int| 0 <= i < level.files.len() implies child_key(root, files[i]) == Some(
        (#[trigger] level.files[i]).key@,
    ) && level.files[i].key@.last() != '/' by {
        assert(files.contains(files[i]));
        assert(describes(root, files[i], level.files[i]));
        lemma_key_end(root, files[i].path@);
    }
    assert forall|i: int, j: int| 0 <= i < j < level.files.len() implies (
    #[trigger] level.files[i]).key@ != (#[trigger] level.files[j]).key@ by {
        assert(child_key(root, files[i]) != child_key(root, files[j]));
    }
    law_delimited_lists_once(level);
}

/// A delimited page of fewer keys is the beginning of the whole. It holds as many keys as it may,
/// or all; what it leaves out sorts after what it shows; it is truncated just when it leaves
/// something out, and then resumes after the last key that it shows.
pub proof fn law_delimited_page_is_the_beginning(
    mapper: &PathMapper,
    plan: &ListPlan,
    statuses: Vec<FileStatus>,
    expose: bool,
    page: Page,
    roomy: &ListPlan,
    whole: Page,
    root: &str,
    a: Seq<char>,
    b: Seq<char>,
)
    requires
        mapper.wf(),
        call_ensures(PathMapper::root, (mapper,), root),
        call_ensures(
            delimited_page,
            (mapper, plan, Ok(statuses), expose),
            Ok::<Page, S3Error>(page),
        ),
        call_ensures(
            delimited_page,
            (mapper, roomy, Ok(statuses), expose),
            Ok::<Page, S3Error>(whole),
        ),
        !whole.is_truncated,
        *roomy == (ListPlan { max_keys: roomy.max_keys, ..*plan }),
        plan.start is Some,
        plan.delimiter matches Some(d) && d@.len() > 0,
        forall|i: int, j: int|
            0 <= i < j < statuses@.len() && !(#[trigger] statuses@[i]).isdir && !(
            #[trigger] statuses@[j]).isdir && key_of_path(root@, statuses@[i].path@) is Some
                ==> key_of_path(root@, statuses@[i].path@) != key_of_path(
                root@,
                statuses@[j].path@,
            ),
    ensures
        page.is_truncated <==> plan.max_keys < whole.contents@.len()
            + whole.common_prefixes@.len(),
        page.is_truncated ==> page.contents@.len() + page.common_prefixes@.len() == plan.max_keys,
        !page.is_truncated ==> page.contents@.len() + page.common_prefixes@.len()
            == whole.contents@.len() + whole.common_prefixes@.len(),
        page_shows(page, a) ==> page_shows(whole, a),
        page_shows(page, a) && page_shows(whole, b) && !page_shows(page, b) ==> key_lt(a, b),
        page.next_token is Some <==> page.is_truncated && plan.max_keys > 0,
        page.next_token matches Some(t) ==> page_shows(page, t@) && (page_shows(page, a)
            ==> !key_lt(t@, a)),
{
    let marker = view_string(plan.start_after);
    let n = plan.max_keys as nat;
    let m = roomy.max_keys as nat;
    let l1 = choose|level: Level|
        is_level(root@, statuses@, *plan, level) && #[trigger] level.pages(marker, n, page);
    let l2 = choose|level: Level|
        is_level(root@, statuses@, *roomy, level) && #[trigger] level.pages(marker, m, whole);
    lemma_listing_lists_once(root@, statuses@, *plan, l1);
    lemma_listing_lists_once(root@, statuses@, *roomy, l2);
    let k1 = law_page_shows_first_keys(l1, marker, n, page);
    let k2 = law_page_shows_first_keys(l2, marker, m, whole);
    assert forall|key: Seq<char>| k1.contains(key) <==> k2.contains(key) by {
        lemma_level_lists(root@, statuses@, *plan, l1, key);
        lemma_level_lists(root@, statuses@, *roomy, l2, key);
        let f1 = |key: Seq<char>| l1.lists_key(key);
        let f2 = |key: Seq<char>| l2.lists_key(key);
        assert(k1.contains(key) <==> f1(key) && past(marker, key));
        assert(k2.contains(key) <==> f2(key) && past(marker, key));
    }
    lemma_climbing_unique(k1, k2);
    lemma_pages_begin(k1, page, n, whole, m, a, b);
}

} // verus!
