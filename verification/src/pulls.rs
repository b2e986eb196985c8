//! What any number of pulls on a listing asks for and returns.
//!
//! A pull is one call of [`crate::sorted_listing::SortedListing::next_entry`], with the answer to
//! the directory that it asks for, if it asks.

use crate::error::HdfsError;
use crate::listing::ListEntry;
use crate::namespace::{
    agrees, ascending, awaited_path, belongs, distinct, found, is_namespace, key_in,
    law_prefix_directory_reaches_all, lemma_answering, lemma_below_start, lemma_dir_before,
    lemma_found, lemma_fresh_on_course, lemma_key_names, lemma_keyed_order, lemma_lone_start,
    lemma_marker_not_past, lemma_met_found, lemma_no_children, lemma_nothing_missed,
    lemma_reached_way, lemma_takes_apart, lemma_takes_nothing, lemma_taking, lemma_took_dir,
    lemma_unanswered, lemma_wanted, lemma_wanted_order, met, opened, reached, took_dir, tracks,
    way_dir, way_open, Namespace,
};
use crate::path::{
    abs_path, all_names, is_name, is_root, join, key_of_path, lemma_below_names, lemma_join_concat,
    start_of,
};
use crate::sorted_listing::{
    describes, lemma_passes_wanted, lemma_wanted_push, lists, passes, takes, FileStatus, Merge,
    PullStep, Query,
};
use crate::text::{
    key_le, key_lt, lemma_key_lt_asymmetric, lemma_key_lt_irreflexive, lemma_key_lt_total,
    lemma_key_lt_transitive,
};
use vstd::multiset::Multiset;
use vstd::prelude::*;

verus! {

/// One pull on a listing: what it came to, the state that it left, and, where it asked for a
/// directory, the answer and whether the answer let the listing go on; the state in the end.
pub struct Pull {
    pub out: PullStep,
    pub waiting: Merge,
    pub answer: Result<Seq<FileStatus>, HdfsError>,
    pub result: Result<(), HdfsError>,
    pub after: Merge,
}

/// From `before`, a pull on the listing, answered by the namespace if it asks. The answer may be
/// an error that the pull fails with.
pub open spec fn is_pull(ns: Namespace, before: Merge, p: Pull) -> bool {
    &&& before.pulls(p.waiting, p.out)
    &&& match p.out {
        PullStep::List(dir) => agrees(ns, dir@, p.answer) && p.waiting.answered(
            p.answer,
            p.after,
            p.result,
        ),
        _ => p.after == p.waiting,
    }
}

/// The state of a fresh listing after the first `i` pulls on it.
pub open spec fn state_pulled(q: Query, start: Seq<char>, pulls: Seq<Pull>, i: int) -> Merge {
    if i <= 0 {
        Merge::fresh(q, start)
    } else {
        pulls[i - 1].after
    }
}

/// Any number of pulls on a fresh listing over the namespace, one after the other.
pub open spec fn are_pulls(ns: Namespace, q: Query, start: Seq<char>, pulls: Seq<Pull>) -> bool {
    forall|i: int|
        0 <= i < pulls.len() ==> is_pull(
            ns,
            state_pulled(q, start, pulls, i),
            #[trigger] pulls[i],
        )
}

/// The entries that the first `i` pulls returned.
pub open spec fn pulled(pulls: Seq<Pull>, i: int) -> Seq<ListEntry>
    decreases i,
{
    if i <= 0 {
        Seq::empty()
    } else {
        match pulls[i - 1].out {
            PullStep::Entry(e) => pulled(pulls, i - 1).push(e),
            _ => pulled(pulls, i - 1),
        }
    }
}

/// One of the first `i` pulls was answered with a listing that holds `s`.
pub open spec fn seen_before(pulls: Seq<Pull>, i: int, s: FileStatus) -> bool {
    exists|j: int| 0 <= j < i && answer_holds(#[trigger] pulls[j], s)
}

/// The pull asked for a directory, and the answer holds `s`.
pub open spec fn answer_holds(p: Pull, s: FileStatus) -> bool {
    p.out is List && (p.answer matches Ok(statuses) && statuses.contains(s))
}

/// The pull asked for a directory.
pub open spec fn asks(p: Pull) -> bool {
    p.out is List
}

/// The directory that a pull asked for.
pub open spec fn asked_dir(p: Pull) -> Seq<char> {
    p.out->List_0@
}

/// The directories that the first `i` pulls asked for: the start directory first, then
/// directories that were taken, each after the one before it.
spec fn pulled_in_order(
    q: Query,
    start: Seq<char>,
    pulls: Seq<Pull>,
    i: int,
    taken: Seq<FileStatus>,
) -> bool {
    &&& i > 0 ==> asks(pulls[0]) && asked_dir(pulls[0]) == start
    &&& forall|j: int|
        1 <= j < i && #[trigger] asks(pulls[j]) ==> took_dir(q, taken, asked_dir(pulls[j]))
    &&& forall|j: int, k: int|
        1 <= j < k < i && #[trigger] asks(pulls[j]) && #[trigger] asks(pulls[k]) ==> key_lt(
            asked_dir(pulls[j]),
            asked_dir(pulls[k]),
        )
}

/// A listing after some pulls, on its way.
spec fn pulling(
    ns: Namespace,
    q: Query,
    start: Seq<char>,
    names: Seq<Seq<char>>,
    pulls: Seq<Pull>,
    i: int,
    m: Merge,
    taken: Seq<FileStatus>,
) -> bool {
    &&& m.query == q
    &&& m.start == start
    &&& m.awaited is Nothing
    &&& i > 0 ==> m.seeded
    &&& i == 0 ==> !m.seeded
    &&& tracks(ns, m, names, taken)
    &&& lists(q.root, q.wanted(taken), pulled(pulls, i))
    &&& forall|s: FileStatus| #[trigger] met(m, taken, s) ==> seen_before(pulls, i, s)
    &&& pulled_in_order(q, start, pulls, i, taken)
}

/// What is wanted of entries taken by a pull that ends at `more.last()`.
proof fn lemma_wanted_pull(q: Query, taken: Seq<FileStatus>, more: Seq<FileStatus>)
    requires
        more.len() > 0,
        passes(q, more.drop_last()),
    ensures
        q.wanted(taken + more) == if q.wants(more.last()) {
            q.wanted(taken).push(more.last())
        } else {
            q.wanted(taken)
        },
{
    let front = more.drop_last();
    lemma_passes_wanted(q, front);
    Seq::filter_distributes_over_add(taken, front, |s: FileStatus| q.wants(s));
    assert(q.wanted(taken) + Seq::<FileStatus>::empty() =~= q.wanted(taken));
    assert(taken + more =~= (taken + front).push(more.last()));
    lemma_wanted_push(q, taken + front, more.last());
}

/// A pull that asks: the state while it waits, and what was taken by then.
proof fn lemma_pull_asks(
    ns: Namespace,
    q: Query,
    start: Seq<char>,
    names: Seq<Seq<char>>,
    pulls: Seq<Pull>,
    i: int,
    a: Merge,
    taken: Seq<FileStatus>,
    p: Pull,
) -> (next: Seq<FileStatus>)
    requires
        start == abs_path(names),
        pulling(ns, q, start, names, pulls, i, a, taken),
        a.pulls(p.waiting, p.out),
        asks(p),
    ensures
        tracks(ns, p.waiting, names, next),
        p.waiting.query == q,
        p.waiting.start == start,
        p.waiting.seeded,
        !(p.waiting.awaited is Nothing),
        asked_dir(p) == awaited_path(p.waiting),
        taken.is_prefix_of(next),
        q.wanted(next) == q.wanted(taken),
        forall|s: FileStatus| #[trigger]
            met(p.waiting, next, s) <==> met(a, taken, s),
        i == 0 ==> p.waiting.awaited is Start && next == taken,
        i > 0 ==> p.waiting.awaited is Dir && taken.len() < next.len(),
{
    let mid = p.waiting;
    if !a.seeded {
        assert forall|s: FileStatus| !#[trigger] met(mid, taken, s) by {
            assert(!taken.contains(s));
            assert(!mid.frontier.contains(s));
        }
        assert forall|s: FileStatus| !#[trigger] met(a, taken, s) by {
            assert(!taken.contains(s));
            assert(!a.frontier.contains(s));
        }
        assert(forall|d: Seq<char>| !opened(mid, taken, d));
        assert(taken.subrange(0, taken.len() as int) =~= taken);
        taken
    } else {
        let more = choose|more: Seq<FileStatus>| #[trigger]
            a.pulls_dir(more, mid, asked_dir(p));
        lemma_taking(ns, a, names, taken, more, mid);
        lemma_wanted_pull(q, taken, more);
        let next = taken + more;
        assert(next.subrange(0, taken.len() as int) =~= taken);
        lemma_met_taken(a, taken, more, mid);
        next
    }
}

/// Taking entries does not change what was met.
proof fn lemma_met_taken(a: Merge, taken: Seq<FileStatus>, more: Seq<FileStatus>, post: Merge)
    requires
        takes(a.frontier, more, post.frontier),
        distinct(a.frontier),
    ensures
        forall|s: FileStatus| #[trigger] met(post, taken + more, s) <==> met(a, taken, s),
{
    let all = taken + more;
    lemma_takes_apart(a.frontier, more, post.frontier);
    assert forall|s: FileStatus| #[trigger] met(post, all, s) <==> met(a, taken, s) by {
        if all.contains(s) {
            let i = choose|i: int| 0 <= i < all.len() && all[i] == s;
            if i < taken.len() {
                assert(taken[i] == s);
            } else {
                assert(more[i - taken.len()] == s);
            }
        }
        if taken.contains(s) {
            let i = choose|i: int| 0 <= i < taken.len() && taken[i] == s;
            assert(all[i] == s);
        }
        if more.contains(s) {
            let i = choose|i: int| 0 <= i < more.len() && more[i] == s;
            assert(all[i + taken.len()] == s);
        }
    }
}

/// What was seen stays seen.
proof fn lemma_seen_before(pulls: Seq<Pull>, i: int, s: FileStatus)
    requires
        seen_before(pulls, i, s),
    ensures
        seen_before(pulls, i + 1, s),
{
    let j = choose|j: int| 0 <= j < i && answer_holds(#[trigger] pulls[j], s);
    assert(answer_holds(pulls[j], s));
}

/// A pull that does not ask keeps a listing on its way.
proof fn lemma_pull_answers(
    ns: Namespace,
    q: Query,
    start: Seq<char>,
    names: Seq<Seq<char>>,
    pulls: Seq<Pull>,
    i: int,
    a: Merge,
    taken: Seq<FileStatus>,
) -> (next: Seq<FileStatus>)
    requires
        start == abs_path(names),
        0 <= i < pulls.len(),
        pulling(ns, q, start, names, pulls, i, a, taken),
        a.pulls(pulls[i].waiting, pulls[i].out),
        !asks(pulls[i]),
        pulls[i].after == pulls[i].waiting,
    ensures
        pulling(ns, q, start, names, pulls, i + 1, pulls[i].after, next),
{
    let p = pulls[i];
    let post = p.after;
    let next = if a.exhausted {
        taken
    } else {
        match p.out {
            PullStep::Entry(e) => {
                let more = choose|more: Seq<FileStatus>| #[trigger] a.pulls_entry(more, post, e);
                assert forall|k: int| 0 <= k < more.len() implies !q.opens(#[trigger] more[k]) by {
                    if k < more.len() - 1 {
                        assert(more.drop_last()[k] == more[k]);
                    }
                }
                lemma_taking(ns, a, names, taken, more, post);
                lemma_wanted_pull(q, taken, more);
                lemma_met_taken(a, taken, more, post);
                taken + more
            },
            _ => {
                let more = choose|more: Seq<FileStatus>| #[trigger] a.pulls_nothing(more, post);
                lemma_taking(ns, a, names, taken, more, post);
                lemma_passes_wanted(q, more);
                Seq::filter_distributes_over_add(taken, more, |s: FileStatus| q.wants(s));
                assert(q.wanted(taken) + Seq::<FileStatus>::empty() =~= q.wanted(taken));
                lemma_met_taken(a, taken, more, post);
                taken + more
            },
        }
    };
    assert(taken.is_prefix_of(next)) by {
        assert(next.subrange(0, taken.len() as int) =~= taken);
    }
    assert forall|s: FileStatus| #[trigger] met(post, next, s) implies seen_before(
        pulls,
        i + 1,
        s,
    ) by {
        assert(met(a, taken, s));
        lemma_seen_before(pulls, i, s);
    }
    assert forall|j: int| 1 <= j < i + 1 && #[trigger] asks(pulls[j]) implies took_dir(
        q,
        next,
        asked_dir(pulls[j]),
    ) by {
        lemma_took_dir(q, taken, next, asked_dir(pulls[j]));
    }
    next
}

/// A pull that asks keeps the order of the directories asked for.
proof fn lemma_pull_in_order(
    q: Query,
    start: Seq<char>,
    pulls: Seq<Pull>,
    k: int,
    taken: Seq<FileStatus>,
    next: Seq<FileStatus>,
)
    requires
        0 <= k < pulls.len(),
        pulled_in_order(q, start, pulls, k, taken),
        taken.is_prefix_of(next),
        ascending(next),
        asks(pulls[k]),
        k == 0 ==> asked_dir(pulls[k]) == start,
        k > 0 ==> taken.len() < next.len() && next.last().path@ == asked_dir(pulls[k]) && q.opens(
            next.last(),
        ),
    ensures
        pulled_in_order(q, start, pulls, k + 1, next),
{
    assert forall|j: int| 1 <= j < k + 1 && #[trigger] asks(pulls[j]) implies took_dir(
        q,
        next,
        asked_dir(pulls[j]),
    ) by {
        if j < k {
            lemma_took_dir(q, taken, next, asked_dir(pulls[j]));
        } else {
            assert(next[next.len() - 1].path@ == asked_dir(pulls[k]));
        }
    }
    assert forall|j: int, l: int|
        1 <= j < l < k + 1 && #[trigger] asks(pulls[j]) && #[trigger] asks(pulls[l]) implies key_lt(
        asked_dir(pulls[j]),
        asked_dir(pulls[l]),
    ) by {
        if l == k {
            assert(took_dir(q, taken, asked_dir(pulls[j])));
            let n = choose|n: int|
                0 <= n < taken.len() && (#[trigger] taken[n]).path@ == asked_dir(pulls[j])
                    && q.opens(taken[n]);
            assert(next.subrange(0, taken.len() as int)[n] == taken[n]);
            assert(key_lt(next[n].path@, next[next.len() - 1].path@));
        }
    }
}

/// What was met once the answer to a pull is in was seen in an answer.
proof fn lemma_pull_seen(
    pulls: Seq<Pull>,
    k: int,
    a: Merge,
    taken: Seq<FileStatus>,
    next: Seq<FileStatus>,
    s: FileStatus,
)
    requires
        0 <= k < pulls.len(),
        asks(pulls[k]),
        !(pulls[k].waiting.awaited is Nothing),
        pulls[k].waiting.answered(pulls[k].answer, pulls[k].after, pulls[k].result),
        met(pulls[k].waiting, next, s) ==> met(a, taken, s),
        met(a, taken, s) ==> seen_before(pulls, k, s),
        met(pulls[k].after, next, s),
    ensures
        seen_before(pulls, k + 1, s),
{
    broadcast use vstd::seq_lib::group_to_multiset_ensures;

    let p = pulls[k];
    if met(p.waiting, next, s) {
        lemma_seen_before(pulls, k, s);
    } else {
        let statuses = p.answer->Ok_0;
        assert(p.after.frontier.count(s) == p.waiting.frontier.count(s)
            + statuses.to_multiset().count(s));
        assert(statuses.contains(s));
        assert(answer_holds(pulls[k], s));
    }
}

/// A pull that asks keeps a listing on its way.
proof fn lemma_pull_supplied(
    ns: Namespace,
    q: Query,
    start: Seq<char>,
    names: Seq<Seq<char>>,
    pulls: Seq<Pull>,
    k: int,
    a: Merge,
    taken: Seq<FileStatus>,
) -> (next: Seq<FileStatus>)
    requires
        is_namespace(ns),
        all_names(names),
        start == abs_path(names),
        0 <= k < pulls.len(),
        pulling(ns, q, start, names, pulls, k, a, taken),
        is_pull(ns, a, pulls[k]),
        asks(pulls[k]),
    ensures
        pulling(ns, q, start, names, pulls, k + 1, pulls[k].after, next),
{
    let p = pulls[k];
    let next = lemma_pull_asks(ns, q, start, names, pulls, k, a, taken, p);
    assert(tracks(ns, p.after, names, next)) by {
        match p.answer {
            Ok(statuses) => {
                lemma_answering(ns, p.waiting, names, next, statuses, p.after);
            },
            Err(e) => {
                lemma_unanswered(ns, p.waiting, names, next, p.after);
            },
        }
    }
    assert forall|s: FileStatus| #[trigger] met(p.after, next, s) implies seen_before(
        pulls,
        k + 1,
        s,
    ) by {
        lemma_pull_seen(pulls, k, a, taken, next, s);
    }
    lemma_pull_in_order(q, start, pulls, k, taken, next);
    next
}

/// Every listing is on its way after any number of pulls.
proof fn lemma_pulls(
    ns: Namespace,
    q: Query,
    start: Seq<char>,
    names: Seq<Seq<char>>,
    pulls: Seq<Pull>,
    i: int,
) -> (taken: Seq<FileStatus>)
    requires
        is_namespace(ns),
        all_names(names),
        start == abs_path(names),
        are_pulls(ns, q, start, pulls),
        0 <= i <= pulls.len(),
    ensures
        pulling(ns, q, start, names, pulls, i, state_pulled(q, start, pulls, i), taken),
    decreases i,
{
    if i == 0 {
        lemma_fresh_on_course(ns, q, start, 0, names);
        let none = Seq::<FileStatus>::empty();
        let m = Merge::fresh(q, start);
        assert forall|s: FileStatus| !#[trigger] met(m, none, s) by {
            assert(!none.contains(s));
            assert(!m.frontier.contains(s));
        }
        none
    } else {
        let k = i - 1;
        let a = state_pulled(q, start, pulls, k);
        let taken = lemma_pulls(ns, q, start, names, pulls, k);
        let p = pulls[k];
        assert(is_pull(ns, a, pulls[k]));
        if !asks(p) {
            lemma_pull_answers(ns, q, start, names, pulls, k, a, taken)
        } else {
            lemma_pull_supplied(ns, q, start, names, pulls, k, a, taken)
        }
    }
}

/// A prefix that what lies directly below a directory begins with ends in the name that
/// follows: what begins with it below another name does so in that name already.
proof fn lemma_prefix_in_name(
    prefix: Seq<char>,
    top: Seq<Seq<char>>,
    name: Seq<char>,
    below: Seq<Seq<char>>,
    i: int,
)
    requires
        is_name(name),
        all_names(top + below),
        1 <= i <= below.len(),
        prefix.is_prefix_of(join(top.push(name), '/')),
        prefix.is_prefix_of(join(top + below, '/')),
    ensures
        prefix.is_prefix_of(join(top + below.take(i), '/')),
{
    let first = top.push(below[0]);
    let lead = if top.len() == 0 {
        Seq::<char>::empty()
    } else {
        join(top, '/').push('/')
    };
    assert(join(top.push(name), '/') =~= lead + name) by {
        assert(top.push(name).drop_last() =~= top);
    }
    assert(join(first, '/') =~= lead + below[0]) by {
        assert(first.drop_last() =~= top);
    }
    let key = join(top + below, '/');
    let part = join(first, '/');
    let n = part.len() as int;
    if below.len() > 1 {
        let rest = below.skip(1);
        assert(first + rest =~= top + below);
        lemma_join_concat(first, rest, '/');
        assert(key[n] == '/');
        assert(key.take(n) =~= part);
        if prefix.len() > n {
            assert(prefix[n] == key[n]);
            assert(prefix[n] == (lead + name)[n]);
            assert(name[n - lead.len()] == '/');
            assert(name.contains('/'));
        }
    } else {
        assert(top + below =~= first);
        assert(key.take(n) =~= part);
    }
    assert(prefix.is_prefix_of(part)) by {
        assert(prefix =~= part.take(prefix.len() as int));
    }
    let head = top + below.take(i);
    if i == 1 {
        assert(head =~= first);
    } else {
        let more = below.take(i).skip(1);
        assert(first + more =~= head);
        lemma_join_concat(first, more, '/');
        assert(prefix =~= join(head, '/').take(prefix.len() as int));
    }
}

/// Once one directory below the start has to be opened, the way to every wanted file is open.
proof fn lemma_other_way(
    q: Query,
    root: Seq<Seq<char>>,
    start: Seq<Seq<char>>,
    name: Seq<char>,
    below: Seq<Seq<char>>,
)
    requires
        all_names(root),
        q.root == abs_path(root),
        all_names(start.push(name)),
        q.opens_dir(abs_path(start.push(name))),
        all_names(start + below),
        below.len() > 0,
        q.wants_file(abs_path(start + below)),
    ensures
        way_open(q, start, below),
{
    let x = lemma_key_names(root, start.push(name));
    let y = lemma_key_names(root, start + below);
    let r = root.len() as int;
    let n = start.len() as int;
    assert forall|i: int| 1 <= i < below.len() implies q.opens_dir(
        #[trigger] way_dir(start, below, i),
    ) by {
        let head = start + below.take(i);
        assert forall|j: int| 0 <= j < head.len() implies is_name(#[trigger] head[j]) by {
            assert((start + below)[j] == head[j]);
        }
        if r <= n {
            let top = start.skip(r);
            assert(root =~= start.push(name).take(r));
            assert((root + x).skip(r) =~= x);
            assert((root + y).skip(r) =~= y);
            assert(start.push(name).skip(r) =~= top.push(name));
            assert((start + below).skip(r) =~= top + below);
            assert(head =~= root + (top + below.take(i)));
            assert(is_name(start.push(name)[n]));
            lemma_prefix_in_name(q.prefix, top, name, below, i);
            lemma_below_names(root, head);
            assert(head.take(r) =~= root);
            assert(head.skip(r) =~= top + below.take(i));
            assert(y.take(top.len() + i) =~= top + below.take(i));
            lemma_marker_not_past(q, y, top.len() + i);
        } else {
            assert(x.len() == 0);
            assert(start.push(name) =~= root);
            assert(q.prefix.len() == 0);
            if i == 1 {
                assert((start + below)[n] == (root + y)[n]);
                assert(head =~= root);
            } else {
                assert(head =~= root + y.take(i - 1)) by {
                    assert(start + below == root + y);
                    assert forall|j: int| 0 <= j < head.len() implies head[j] == (root + y.take(
                        i - 1,
                    ))[j] by {
                        assert((start + below)[j] == (root + y)[j]);
                    }
                }
                lemma_below_names(root, head);
                assert(head.take(r) =~= root);
                assert(head.skip(r) =~= y.take(i - 1));
                lemma_marker_not_past(q, y, i - 1);
            }
        }
    }
}

/// A start directory whose path is not spelled by real names lists nothing.
proof fn lemma_lone_pulls(ns: Namespace, q: Query, start: Seq<char>, pulls: Seq<Pull>, i: int)
    requires
        is_namespace(ns),
        !is_root(start),
        are_pulls(ns, q, start, pulls),
        0 <= i <= pulls.len(),
    ensures
        ({
            let m = state_pulled(q, start, pulls, i);
            &&& m.start == start
            &&& m.frontier == Multiset::<FileStatus>::empty()
            &&& m.awaited is Nothing
            &&& m.seeded <==> i > 0
            &&& i == 0 ==> !m.exhausted
        }),
        pulled(pulls, i) == Seq::<ListEntry>::empty(),
        i > 0 ==> asks(pulls[0]) && asked_dir(pulls[0]) == start,
        forall|j: int| 1 <= j < i ==> !asks(#[trigger] pulls[j]),
    decreases i,
{
    broadcast use vstd::seq_lib::group_to_multiset_ensures;

    if i > 0 {
        let k = i - 1;
        lemma_lone_pulls(ns, q, start, pulls, k);
        let a = state_pulled(q, start, pulls, k);
        let p = pulls[k];
        assert(is_pull(ns, a, pulls[k]));
        if k == 0 {
            if let Ok(statuses) = p.answer {
                lemma_no_children(ns, start, statuses);
                assert(p.after.frontier =~= Multiset::<FileStatus>::empty());
            }
        } else if !a.exhausted {
            match p.out {
                PullStep::List(d) => {
                    let more = choose|more: Seq<FileStatus>| #[trigger]
                        a.pulls_dir(more, p.waiting, d@);
                    lemma_takes_nothing(more, p.waiting.frontier);
                },
                PullStep::Entry(e) => {
                    let more = choose|more: Seq<FileStatus>| #[trigger]
                        a.pulls_entry(more, p.waiting, e);
                    lemma_takes_nothing(more, p.waiting.frontier);
                },
                PullStep::Done => {},
            }
        }
    }
}

/// While a directory besides the start is asked for, what sorts before it was returned.
proof fn lemma_returned_before(
    ns: Namespace,
    q: Query,
    start: Seq<char>,
    names: Seq<Seq<char>>,
    taken: Seq<FileStatus>,
    entries: Seq<ListEntry>,
    m: Merge,
    next: Seq<FileStatus>,
    way: Seq<Seq<char>>,
    s: FileStatus,
)
    requires
        is_root(q.root),
        all_names(names),
        start == abs_path(names),
        lists(q.root, q.wanted(taken), entries),
        m.query == q,
        m.seeded,
        tracks(ns, m, names, next),
        q.wanted(next) == q.wanted(taken),
        next.len() > 0,
        found(ns, names, way, next.last()),
        way_open(q, names, way),
        q.opens(next.last()),
        belongs(ns, q, start, s),
        key_lt(key_in(q, s), key_of_path(q.root, next.last().path@)->0),
    ensures
        exists|e: ListEntry| entries.contains(e) && #[trigger] describes(q.root, s, e),
{
    let below = lemma_below_start(ns, q, start, names, s);
    let root = choose|r: Seq<Seq<char>>| #[trigger] all_names(r) && q.root == abs_path(r);
    lemma_found(ns, names, way, next.last());
    lemma_keyed_order(root, names + below, names + way);
    lemma_asked_way(ns, q, names, way, next.last(), below, s);
    assert(below.take(below.len() as int) =~= below);
    let n = below.len() as int;
    lemma_nothing_missed(ns, m, names, next, below, s, n, s);
    lemma_wanted(q, next);
    assert(q.wanted(next).contains(s));
    let k = choose|k: int| 0 <= k < q.wanted(taken).len() && q.wanted(taken)[k] == s;
    let e = entries[k];
    assert(describes(q.root, q.wanted(taken)[k], e));
    assert(entries.contains(e));
}

/// Which directories a listing asks for, and when, over any number of pulls, whatever directory
/// it starts at. The first pull asks for the start directory, and none after it does. Any other
/// directory that a pull asks for was in an earlier answer; its key begins with the prefix, and
/// its keys do not all sort before the marker; it sorts after each other directory asked for so
/// far, so that none is asked for twice; and every key of the listing that sorts before its key
/// was returned already.
pub proof fn law_pulls_ask_in_turn(
    ns: Namespace,
    q: Query,
    start: Seq<char>,
    pulls: Seq<Pull>,
    j: int,
)
    requires
        is_namespace(ns),
        is_root(q.root),
        are_pulls(ns, q, start, pulls),
        0 <= j < pulls.len(),
        asks(pulls[j]),
    ensures
        asks(pulls[0]),
        asked_dir(pulls[0]) == start,
        j > 0 ==> asked_dir(pulls[j]) != start,
        j > 0 ==> q.opens_dir(asked_dir(pulls[j])),
        j > 0 ==> exists|s: FileStatus| #[trigger]
            seen_before(pulls, j, s) && s.isdir && s.path@ == asked_dir(pulls[j]),
        forall|i: int|
            1 <= i < j && asks(#[trigger] pulls[i]) ==> key_lt(
                asked_dir(pulls[i]),
                asked_dir(pulls[j]),
            ),
        j > 0 ==> forall|s: FileStatus| #[trigger]
            belongs(ns, q, start, s) && key_lt(
                key_in(q, s),
                key_of_path(q.root, asked_dir(pulls[j]))->0,
            ) ==> exists|e: ListEntry|
                pulled(pulls, j).contains(e) && #[trigger] describes(q.root, s, e),
{
    if !is_root(start) {
        lemma_lone_pulls(ns, q, start, pulls, j + 1);
    } else {
        let names = choose|names: Seq<Seq<char>>| #[trigger]
            all_names(names) && start == abs_path(names);
        let p = pulls[j];
        let a = state_pulled(q, start, pulls, j);
        let taken = lemma_pulls(ns, q, start, names, pulls, j);
        let all = lemma_pulls(ns, q, start, names, pulls, j + 1);
        assert(is_pull(ns, a, pulls[j]));
        assert forall|i: int| 1 <= i < j && asks(#[trigger] pulls[i]) implies key_lt(
            asked_dir(pulls[i]),
            asked_dir(pulls[j]),
        ) by {
            assert(asks(pulls[i]) && asks(pulls[j]));
        }
        if j > 0 {
            let next = lemma_pull_asks(ns, q, start, names, pulls, j, a, taken, p);
            let m = p.waiting;
            let last = next.last();
            assert(next.contains(last));
            assert(met(m, next, last));
            assert(met(a, taken, last));
            assert(seen_before(pulls, j, last));
            let way = lemma_met_found(ns, m, names, next, last);
            lemma_dir_before(names, way);
            lemma_key_lt_irreflexive(start);
            assert forall|s: FileStatus| #[trigger]
                belongs(ns, q, start, s) && key_lt(
                    key_in(q, s),
                    key_of_path(q.root, asked_dir(p))->0,
                ) implies exists|e: ListEntry|
                pulled(pulls, j).contains(e) && #[trigger] describes(q.root, s, e) by {
                lemma_returned_before(ns, q, start, names, taken, pulled(pulls, j), m, next, way, s);
            }
        }
    }
}

/// Once a directory is asked for besides the start, the way to every wanted file is open.
proof fn lemma_asked_way(
    ns: Namespace,
    q: Query,
    start: Seq<Seq<char>>,
    way: Seq<Seq<char>>,
    dir: FileStatus,
    below: Seq<Seq<char>>,
    s: FileStatus,
)
    requires
        is_root(q.root),
        found(ns, start, way, dir),
        way_open(q, start, way),
        q.opens(dir),
        found(ns, start, below, s),
        q.wants(s),
    ensures
        way_open(q, start, below),
{
    let root = choose|names: Seq<Seq<char>>| #[trigger]
        all_names(names) && q.root == abs_path(names);
    lemma_found(ns, start, way, dir);
    lemma_found(ns, start, below, s);
    let name = way[0];
    assert(start + way.take(1) =~= start.push(name));
    if way.len() == 1 {
        assert(way.take(1) =~= way);
    } else {
        assert(q.opens_dir(way_dir(start, way, 1)));
    }
    assert forall|i: int| 0 <= i < start.push(name).len() implies is_name(
        #[trigger] start.push(name)[i],
    ) by {
        assert((start + way)[i] == start.push(name)[i]);
    }
    lemma_other_way(q, root, start, name, below);
}

/// The end is the end: after a pull that found no more entries, every pull finds none, and none
/// asks for a directory.
pub proof fn law_pulls_end(
    ns: Namespace,
    q: Query,
    start: Seq<char>,
    pulls: Seq<Pull>,
    i: int,
    j: int,
)
    requires
        are_pulls(ns, q, start, pulls),
        0 <= i <= j < pulls.len(),
        pulls[i].out is Done,
    ensures
        pulls[j].out is Done,
        pulls[j].after.exhausted,
        pulls[j].after.awaited is Nothing,
    decreases j,
{
    assert(is_pull(ns, state_pulled(q, start, pulls, j), pulls[j]));
    if i < j {
        law_pulls_end(ns, q, start, pulls, i, j - 1);
    }
}

/// `e` is the entry of a file that a walk from the start comes to.
pub open spec fn is_reached_entry(
    ns: Namespace,
    q: Query,
    start: Seq<char>,
    e: ListEntry,
) -> bool {
    exists|s: FileStatus| #[trigger] reached(ns, q, start, s) && describes(q.root, s, e)
}

/// `entries` are, in byte order, the entries of all files that a walk from the start comes to,
/// up to some key; if `done`, all of them.
pub open spec fn returns_in_turn(
    ns: Namespace,
    q: Query,
    start: Seq<char>,
    entries: Seq<ListEntry>,
    done: bool,
) -> bool {
    &&& forall|i: int, j: int|
        0 <= i < j < entries.len() ==> key_lt(
            (#[trigger] entries[i]).key@,
            (#[trigger] entries[j]).key@,
        )
    &&& forall|i: int|
        0 <= i < entries.len() ==> is_reached_entry(ns, q, start, #[trigger] entries[i])
    &&& forall|s: FileStatus| #[trigger]
        reached(ns, q, start, s) && (done || entries.len() > 0 && key_le(
            key_in(q, s),
            entries.last().key@,
        )) ==> exists|e: ListEntry| entries.contains(e) && #[trigger] describes(q.root, s, e)
}

/// The entries that any number of pulls return are those of the listing in byte order, each
/// once and without a gap: whatever sorts before the last of them was returned too, and once a
/// pull finds no more entries, everything was. That is everything of the listing that a walk
/// from the start comes to, which from the directory of the prefix is all of it.
pub proof fn law_pulls_exact(ns: Namespace, q: Query, start: Seq<char>, pulls: Seq<Pull>)
    requires
        is_namespace(ns),
        is_root(q.root),
        are_pulls(ns, q, start, pulls),
    ensures
        returns_in_turn(
            ns,
            q,
            start,
            pulled(pulls, pulls.len() as int),
            pulls.len() > 0 && pulls.last().out is Done,
        ),
        start_of(q.root, q.prefix) == Some(start) ==> forall|s: FileStatus|
            reached(ns, q, start, s) <==> #[trigger] belongs(ns, q, start, s),
{
    if start_of(q.root, q.prefix) == Some(start) {
        assert forall|s: FileStatus| reached(ns, q, start, s) <==> #[trigger] belongs(
            ns,
            q,
            start,
            s,
        ) by {
            law_prefix_directory_reaches_all(ns, q, start, s);
        }
    }
    if !is_root(start) {
        lemma_lone_pulls(ns, q, start, pulls, pulls.len() as int);
        assert forall|s: FileStatus| !#[trigger] reached(ns, q, start, s) by {
            lemma_lone_start(ns, q, start, s);
        }
    } else {
        let names = choose|names: Seq<Seq<char>>| #[trigger]
            all_names(names) && start == abs_path(names);
        lemma_pulls_exact(ns, q, start, names, pulls);
    }
}

/// What pulls return, from a start directory that is spelled by `names`.
proof fn lemma_pulls_exact(
    ns: Namespace,
    q: Query,
    start: Seq<char>,
    names: Seq<Seq<char>>,
    pulls: Seq<Pull>,
)
    requires
        is_namespace(ns),
        is_root(q.root),
        all_names(names),
        start == abs_path(names),
        are_pulls(ns, q, start, pulls),
    ensures
        returns_in_turn(
            ns,
            q,
            start,
            pulled(pulls, pulls.len() as int),
            pulls.len() > 0 && pulls.last().out is Done,
        ),
{
    let n = pulls.len() as int;
    let m = state_pulled(q, start, pulls, n);
    let taken = lemma_pulls(ns, q, start, names, pulls, n);
    let entries = pulled(pulls, n);
    let files = q.wanted(taken);
    lemma_wanted(q, taken);
    assert forall|i: int| 0 <= i < files.len() implies reached(ns, q, start, #[trigger] files[i])
        && taken.contains(files[i]) && exists|x: Seq<Seq<char>>| #[trigger]
        all_names(x) && files[i].path@ == abs_path(x) by {
        assert(files.contains(files[i]));
        assert(met(m, taken, files[i]));
        let below = lemma_met_found(ns, m, names, taken, files[i]);
        assert(found(ns, names, below, files[i]));
        assert(all_names(names + below));
    }
    assert forall|i: int, j: int| 0 <= i < j < entries.len() implies key_lt(
        (#[trigger] entries[i]).key@,
        (#[trigger] entries[j]).key@,
    ) by {
        assert(key_lt(files[i].path@, files[j].path@));
        let x = choose|x: Seq<Seq<char>>| #[trigger]
            all_names(x) && files[i].path@ == abs_path(x);
        let y = choose|x: Seq<Seq<char>>| #[trigger]
            all_names(x) && files[j].path@ == abs_path(x);
        lemma_wanted_order(q, files[i], x, files[j], y);
        assert(describes(q.root, files[i], entries[i]));
        assert(describes(q.root, files[j], entries[j]));
    }
    assert forall|i: int| 0 <= i < entries.len() implies is_reached_entry(
        ns,
        q,
        start,
        #[trigger] entries[i],
    ) by {
        assert(reached(ns, q, start, files[i]));
        assert(describes(q.root, files[i], entries[i]));
    }
    assert forall|s: FileStatus| #[trigger]
        reached(ns, q, start, s) && (entries.len() > 0 && key_le(
            key_in(q, s),
            entries.last().key@,
        ) || pulls.len() > 0 && pulls.last().out is Done) implies exists|e: ListEntry|
        entries.contains(e) && #[trigger] describes(q.root, s, e) by {
        let below = lemma_reached_way(ns, q, start, names, s);
        assert(below.take(below.len() as int) =~= below);
        let len = below.len() as int;
        if pulls.len() > 0 && pulls.last().out is Done {
            law_pulls_end(ns, q, start, pulls, n - 1, n - 1);
            lemma_nothing_missed(ns, m, names, taken, below, s, len, s);
        } else {
            let k = entries.len() - 1;
            let f = files[k];
            let x = choose|x: Seq<Seq<char>>| #[trigger] all_names(x) && f.path@ == abs_path(x);
            assert(describes(q.root, f, entries[k]));
            lemma_wanted_order(q, f, x, s, names + below);
            lemma_key_lt_total(f.path@, s.path@);
            if key_lt(f.path@, s.path@) {
                if key_in(q, s) != entries[k].key@ {
                    lemma_key_lt_asymmetric(key_in(q, s), entries[k].key@);
                } else {
                    lemma_key_lt_irreflexive(entries[k].key@);
                }
            }
            let t = choose|t: int| 0 <= t < taken.len() && taken[t] == f;
            if t < taken.len() - 1 {
                assert(key_lt(taken[t].path@, taken[taken.len() - 1].path@));
                if s.path@ != f.path@ {
                    lemma_key_lt_transitive(s.path@, f.path@, taken.last().path@);
                }
            }
            assert(key_le(s.path@, taken.last().path@));
            lemma_nothing_missed(ns, m, names, taken, below, s, len, s);
        }
        assert(files.contains(s));
        let k = choose|k: int| 0 <= k < files.len() && files[k] == s;
        assert(describes(q.root, files[k], entries[k]));
        assert(entries.contains(entries[k]));
    }
}

// ---------------------------------------------------------------------------------------
// What is returned, in plain terms
// ---------------------------------------------------------------------------------------

/// Once a pull finds no more entries, every file below the prefix's directory, of whatever length
/// and time, whose key begins with the prefix and sorts after the marker was returned, with its
/// size and time.
pub proof fn law_pulls_return_files(
    ns: Namespace,
    q: Query,
    start: Seq<char>,
    pulls: Seq<Pull>,
    names: Seq<Seq<char>>,
    below: Seq<Seq<char>>,
    s: FileStatus,
    key: Seq<char>,
)
    requires
        is_namespace(ns),
        is_root(q.root),
        start_of(q.root, q.prefix) == Some(start),
        are_pulls(ns, q, start, pulls),
        pulls.len() > 0,
        pulls.last().out is Done,
        all_names(names),
        start == abs_path(names),
        found(ns, names, below, s),
        !s.isdir,
        key_of_path(q.root, s.path@) == Some(key),
        q.prefix.is_prefix_of(key),
        q.after matches Some(marker) ==> key_lt(marker, key),
    ensures
        ({
            let entries = pulled(pulls, pulls.len() as int);
            exists|j: int|
                0 <= j < entries.len() && (#[trigger] entries[j]).key@ == key && entries[j].size
                    == s.length && entries[j].modification_time == s.modification_time
        }),
{
    let entries = pulled(pulls, pulls.len() as int);
    law_pulls_exact(ns, q, start, pulls);
    assert(q.wants(s));
    assert(belongs(ns, q, start, s));
    let e = choose|e: ListEntry| entries.contains(e) && #[trigger] describes(q.root, s, e);
    let j = choose|j: int| 0 <= j < entries.len() && entries[j] == e;
    assert(entries[j].key@ == key);
}

/// Every entry that a pull returned is a file below the start directory, as it is there, and sorts
/// after those returned before.
pub proof fn law_pulled_entries_have_a_source(
    ns: Namespace,
    q: Query,
    start: Seq<char>,
    pulls: Seq<Pull>,
    i: int,
    j: int,
) -> (source: (Seq<Seq<char>>, Seq<Seq<char>>, FileStatus))
    requires
        is_namespace(ns),
        is_root(q.root),
        are_pulls(ns, q, start, pulls),
        0 <= i < j < pulled(pulls, pulls.len() as int).len() || 0 == i == j < pulled(
            pulls,
            pulls.len() as int,
        ).len(),
    ensures
        ({
            let entries = pulled(pulls, pulls.len() as int);
            &&& i < j ==> key_lt(entries[i].key@, entries[j].key@)
            &&& start == abs_path(source.0)
            &&& found(ns, source.0, source.1, source.2)
            &&& !source.2.isdir
            &&& key_of_path(q.root, source.2.path@) == Some(entries[j].key@)
            &&& q.prefix.is_prefix_of(entries[j].key@)
            &&& q.after matches Some(marker) ==> key_lt(marker, entries[j].key@)
            &&& entries[j].size == source.2.length
            &&& entries[j].modification_time == source.2.modification_time
        }),
{
    let entries = pulled(pulls, pulls.len() as int);
    law_pulls_exact(ns, q, start, pulls);
    assert(is_reached_entry(ns, q, start, entries[j]));
    let s = choose|s: FileStatus| #[trigger]
        reached(ns, q, start, s) && describes(q.root, s, entries[j]);
    let (top, below) = choose|top: Seq<Seq<char>>, below: Seq<Seq<char>>|
        all_names(top) && start == abs_path(top) && #[trigger] found(ns, top, below, s)
            && way_open(q, top, below);
    (top, below, s)
}

/// A directory besides the start is asked for only if its key begins with the prefix and something
/// in it could sort after the marker, or at it.
pub proof fn law_asked_directories_are_needed(
    ns: Namespace,
    q: Query,
    start: Seq<char>,
    pulls: Seq<Pull>,
    j: int,
)
    requires
        is_namespace(ns),
        is_root(q.root),
        are_pulls(ns, q, start, pulls),
        0 < j < pulls.len(),
        asks(pulls[j]),
    ensures
        key_of_path(q.root, asked_dir(pulls[j])) matches Some(key) && q.prefix.is_prefix_of(key) && (
        q.after matches Some(marker) ==> exists|name: Seq<char>|
            !key_lt(#[trigger] (key.push('/') + name), marker)),
{
    law_pulls_ask_in_turn(ns, q, start, pulls, j);
    let key = key_of_path(q.root, asked_dir(pulls[j]))->0;
    if let Some(marker) = q.after {
        crate::sorted_listing::law_children_all_before(key, marker);
    }
}

} // verus!
