//! What a flat listing of a namespace contains, and that the lazy merge lists exactly that.
//!
//! A namespace is modelled as a fixed answer to every directory listing. The laws at the end
//! hold for every such namespace and every way the merge is driven to the end of a page.

use crate::error::HdfsError;
use crate::listing::{collapsed, dir_group, find_from, ListEntry};
use crate::path::{
    abs_path, all_names, at_or_below, is_name, is_root, join, key_of_path, law_keys_stay_under_root,
    lemma_abs_path_concat, lemma_abs_path_injective, lemma_below_names, lemma_join_concat,
    lemma_join_names_nonempty, lemma_prefix_decided, lemma_start_dir, start_of,
};
use crate::sort::Keyed;
use crate::sorted_listing::{
    children_all_before, describes, law_children_all_before, lists, opens_none, takes, Awaited,
    FileStatus, Merge, PageStep, Query,
};
use crate::text::{
    key_le, key_lt, lemma_key_lt_asymmetric, lemma_key_lt_common_prefix, lemma_key_lt_extension,
    lemma_key_lt_irreflexive, lemma_key_lt_total, lemma_key_lt_transitive,
};
use vstd::multiset::Multiset;
use vstd::prelude::*;

verus! {

/// The answer to the listing of each directory. A directory without one has vanished or may
/// not be read.
pub type Namespace = Map<Seq<char>, Seq<FileStatus>>;

/// `path` names a child of the directory `dir`.
pub open spec fn is_child(dir: Seq<char>, path: Seq<char>) -> bool {
    exists|names: Seq<Seq<char>>, name: Seq<char>|
        all_names(names) && is_name(name) && dir == abs_path(names) && path == #[trigger] abs_path(
            names.push(name),
        )
}

/// A listing holds children of its directory, each once.
pub open spec fn is_namespace(ns: Namespace) -> bool {
    &&& forall|d: Seq<char>, i: int|
        ns.dom().contains(d) && 0 <= i < ns[d].len() ==> is_child(d, (#[trigger] ns[d][i]).path@)
    &&& forall|d: Seq<char>, i: int, j: int|
        ns.dom().contains(d) && 0 <= i < j < ns[d].len() ==> (#[trigger] ns[d][i]).path@ != (
        #[trigger] ns[d][j]).path@
}

/// The directory that the first `n` names of `below` lead to lists `s` under the next name.
pub open spec fn listed_at(
    ns: Namespace,
    start: Seq<Seq<char>>,
    below: Seq<Seq<char>>,
    n: int,
    s: FileStatus,
) -> bool {
    let dir = abs_path(start + below.take(n));
    &&& ns.dom().contains(dir)
    &&& ns[dir].contains(s)
    &&& s.path@ == abs_path(start + below.take(n + 1))
}

/// The first `n` names of `below` lead to a directory that lists another under the next name.
pub open spec fn leads_on(
    ns: Namespace,
    start: Seq<Seq<char>>,
    below: Seq<Seq<char>>,
    n: int,
) -> bool {
    exists|d: FileStatus| d.isdir && #[trigger] listed_at(ns, start, below, n, d)
}

/// `s` is found by following the names `below` down from the directory `start`: each name but
/// the last is that of a directory, and each is listed by the one before it.
pub open spec fn found(
    ns: Namespace,
    start: Seq<Seq<char>>,
    below: Seq<Seq<char>>,
    s: FileStatus,
) -> bool {
    &&& below.len() > 0
    &&& all_names(start + below)
    &&& listed_at(ns, start, below, below.len() - 1, s)
    &&& forall|n: int| 0 <= n < below.len() - 1 ==> #[trigger] leads_on(ns, start, below, n)
}

/// `s` is a file below the directory `start` that belongs in the listing `q`.
pub open spec fn belongs(ns: Namespace, q: Query, start: Seq<char>, s: FileStatus) -> bool {
    &&& q.wants(s)
    &&& exists|top: Seq<Seq<char>>, below: Seq<Seq<char>>|
        all_names(top) && start == abs_path(top) && #[trigger] found(ns, top, below, s)
}

/// The directory that the first `i` names of `below` lead to.
pub open spec fn way_dir(start: Seq<Seq<char>>, below: Seq<Seq<char>>, i: int) -> Seq<char> {
    abs_path(start + below.take(i))
}

/// Each directory on the way down `below` may hold files that belong in the listing `q`.
pub open spec fn way_open(q: Query, start: Seq<Seq<char>>, below: Seq<Seq<char>>) -> bool {
    forall|i: int| 1 <= i < below.len() ==> q.opens_dir(#[trigger] way_dir(start, below, i))
}

/// `s` is a file that belongs in the listing `q`, and a walk down from the directory `start`
/// that opens no directory without need comes to it.
pub open spec fn reached(ns: Namespace, q: Query, start: Seq<char>, s: FileStatus) -> bool {
    &&& q.wants(s)
    &&& exists|top: Seq<Seq<char>>, below: Seq<Seq<char>>|
        all_names(top) && start == abs_path(top) && #[trigger] found(ns, top, below, s)
            && way_open(q, top, below)
}

/// The listing `q` is that of a prefix under a root, and `start` is the directory that the
/// prefix starts at: `root + top` spells it.
pub open spec fn grounded(
    ns: Namespace,
    q: Query,
    start: Seq<char>,
    root: Seq<Seq<char>>,
    top: Seq<Seq<char>>,
) -> bool {
    &&& is_namespace(ns)
    &&& all_names(root)
    &&& all_names(root + top)
    &&& q.root == abs_path(root)
    &&& start == abs_path(root + top)
    &&& start_of(q.root, q.prefix) == Some(start)
}

// ---------------------------------------------------------------------------------------
// Paths of found entries
// ---------------------------------------------------------------------------------------

/// What is found below a subdirectory is found there because the subdirectory is.
proof fn lemma_found_parent(
    ns: Namespace,
    start: Seq<Seq<char>>,
    below: Seq<Seq<char>>,
    s: FileStatus,
) -> (d: FileStatus)
    requires
        found(ns, start, below, s),
        below.len() > 1,
    ensures
        d.isdir,
        found(ns, start, below.drop_last(), d),
{
    let up = below.drop_last();
    let n = below.len() - 2;
    assert(leads_on(ns, start, below, n));
    let d = choose|d: FileStatus| d.isdir && #[trigger] listed_at(ns, start, below, n, d);
    assert(below.take(n) =~= up.take(n));
    assert(below.take(n + 1) =~= up.take(n + 1));
    assert forall|k: int| 0 <= k < up.len() - 1 implies #[trigger] leads_on(ns, start, up, k) by {
        assert(leads_on(ns, start, below, k));
        let e = choose|e: FileStatus| e.isdir && #[trigger] listed_at(ns, start, below, k, e);
        assert(below.take(k) =~= up.take(k));
        assert(below.take(k + 1) =~= up.take(k + 1));
        assert(listed_at(ns, start, up, k, e));
    }
    assert forall|i: int| 0 <= i < (start + up).len() implies is_name(
        #[trigger] (start + up)[i],
    ) by {
        assert((start + up)[i] == (start + below)[i]);
    }
    d
}

/// Where a found entry is and what lists it.
pub proof fn lemma_found(ns: Namespace, start: Seq<Seq<char>>, below: Seq<Seq<char>>, s: FileStatus)
    requires
        found(ns, start, below, s),
    ensures
        ns.dom().contains(abs_path(start + below.drop_last())),
        ns[abs_path(start + below.drop_last())].contains(s),
        s.path@ == abs_path(start + below),
{
    assert(below.take(below.len() - 1) =~= below.drop_last());
    assert(below.take(below.len() as int) =~= below);
}

/// The path of a directory sorts before the paths below it.
pub proof fn lemma_dir_before(dir: Seq<Seq<char>>, below: Seq<Seq<char>>)
    requires
        all_names(dir + below),
        below.len() > 0,
    ensures
        key_lt(abs_path(dir), abs_path(dir + below)),
{
    assert forall|i: int| 0 <= i < dir.len() implies is_name(#[trigger] dir[i]) by {
        assert((dir + below)[i] == dir[i]);
    }
    assert forall|i: int| 0 <= i < below.len() implies is_name(#[trigger] below[i]) by {
        assert((dir + below)[i + dir.len()] == below[i]);
    }
    lemma_abs_path_concat(dir, below);
    lemma_join_names_nonempty(below);
    let d = abs_path(dir);
    let p = abs_path(dir + below);
    let rest = p.skip(d.len() as int);
    assert(p =~= d + rest);
    lemma_key_lt_extension(d, rest);
}

/// Paths below a root sort like their keys.
proof fn lemma_key_order(root: Seq<Seq<char>>, a: Seq<Seq<char>>, b: Seq<Seq<char>>)
    requires
        all_names(root),
        all_names(root + a),
        all_names(root + b),
        a.len() > 0,
        b.len() > 0,
    ensures
        key_of_path(abs_path(root), abs_path(root + a)) == Some(join(a, '/')),
        key_of_path(abs_path(root), abs_path(root + b)) == Some(join(b, '/')),
        key_lt(abs_path(root + a), abs_path(root + b)) <==> key_lt(join(a, '/'), join(b, '/')),
{
    lemma_abs_path_concat(root, a);
    lemma_abs_path_concat(root, b);
    let r = abs_path(root);
    let lead = if r == seq!['/'] {
        r
    } else {
        r.push('/')
    };
    lemma_key_lt_common_prefix(lead, join(a, '/'), join(b, '/'));
    lemma_below_names(root, root + a);
    lemma_below_names(root, root + b);
    assert((root + a).subrange(0, root.len() as int) =~= root);
    assert((root + b).subrange(0, root.len() as int) =~= root);
    assert((root + a).skip(root.len() as int) =~= a);
    assert((root + b).skip(root.len() as int) =~= b);
}

/// One way leads to a path.
proof fn lemma_same_way(start: Seq<Seq<char>>, a: Seq<Seq<char>>, b: Seq<Seq<char>>)
    requires
        all_names(start + a),
        all_names(start + b),
        abs_path(start + a) == abs_path(start + b),
    ensures
        a == b,
{
    lemma_abs_path_injective(start + a, start + b);
    assert((start + a).skip(start.len() as int) =~= a);
    assert((start + b).skip(start.len() as int) =~= b);
}

/// The names from the root to a path that has a key.
pub proof fn lemma_key_names(root: Seq<Seq<char>>, path: Seq<Seq<char>>) -> (names: Seq<Seq<char>>)
    requires
        all_names(root),
        all_names(path),
        key_of_path(abs_path(root), abs_path(path)) is Some,
    ensures
        path == root + names,
        all_names(names),
        key_of_path(abs_path(root), abs_path(path)) == Some(join(names, '/')),
{
    lemma_below_names(root, path);
    let names = path.skip(root.len() as int);
    assert(path =~= root + names);
    assert forall|i: int| 0 <= i < names.len() implies is_name(#[trigger] names[i]) by {
        assert(path[i + root.len()] == names[i]);
    }
    names
}

/// Paths that have keys sort like them.
pub proof fn lemma_keyed_order(root: Seq<Seq<char>>, a: Seq<Seq<char>>, b: Seq<Seq<char>>)
    requires
        all_names(root),
        all_names(a),
        all_names(b),
        key_of_path(abs_path(root), abs_path(a)) is Some,
        key_of_path(abs_path(root), abs_path(b)) is Some,
    ensures
        key_lt(abs_path(a), abs_path(b)) <==> key_lt(
            key_of_path(abs_path(root), abs_path(a))->0,
            key_of_path(abs_path(root), abs_path(b))->0,
        ),
{
    let x = lemma_key_names(root, a);
    let y = lemma_key_names(root, b);
    if x.len() > 0 && y.len() > 0 {
        lemma_key_order(root, x, y);
    } else if y.len() > 0 {
        lemma_dir_before(root, y);
        assert(root + x =~= root);
        lemma_join_names_nonempty(y);
        assert(join(x, '/') + join(y, '/') =~= join(y, '/'));
        lemma_key_lt_extension(join(x, '/'), join(y, '/'));
    } else if x.len() > 0 {
        lemma_dir_before(root, x);
        assert(root + y =~= root);
        lemma_join_names_nonempty(x);
        assert(join(y, '/') + join(x, '/') =~= join(x, '/'));
        lemma_key_lt_extension(join(y, '/'), join(x, '/'));
        lemma_key_lt_asymmetric(abs_path(b), abs_path(a));
        lemma_key_lt_asymmetric(join(y, '/'), join(x, '/'));
    } else {
        assert(a =~= b);
        lemma_key_lt_irreflexive(abs_path(a));
        lemma_key_lt_irreflexive(join(x, '/'));
    }
}

/// How what belongs in a listing is found.
pub proof fn lemma_below_start(
    ns: Namespace,
    q: Query,
    start: Seq<char>,
    names: Seq<Seq<char>>,
    s: FileStatus,
) -> (below: Seq<Seq<char>>)
    requires
        all_names(names),
        start == abs_path(names),
        belongs(ns, q, start, s),
    ensures
        found(ns, names, below, s),
        s.path@ == abs_path(names + below),
{
    let (other, below) = choose|other: Seq<Seq<char>>, below: Seq<Seq<char>>|
        all_names(other) && start == abs_path(other) && #[trigger] found(ns, other, below, s);
    lemma_abs_path_injective(other, names);
    lemma_found(ns, names, below, s);
    below
}

/// How what is reached is found.
pub proof fn lemma_reached_way(
    ns: Namespace,
    q: Query,
    start: Seq<char>,
    names: Seq<Seq<char>>,
    s: FileStatus,
) -> (below: Seq<Seq<char>>)
    requires
        all_names(names),
        start == abs_path(names),
        reached(ns, q, start, s),
    ensures
        found(ns, names, below, s),
        s.path@ == abs_path(names + below),
        way_open(q, names, below),
{
    let (other, below) = choose|other: Seq<Seq<char>>, below: Seq<Seq<char>>|
        all_names(other) && start == abs_path(other) && #[trigger] found(ns, other, below, s)
            && way_open(q, other, below);
    lemma_abs_path_injective(other, names);
    lemma_found(ns, names, below, s);
    below
}

/// If the keys below a directory all sort before the marker, no wanted file is below it.
pub proof fn lemma_marker_not_past(
    q: Query,
    names: Seq<Seq<char>>,
    m: int,
)
    requires
        1 <= m < names.len(),
        q.after matches Some(after) ==> key_lt(after, join(names, '/')),
    ensures
        q.after matches Some(after) ==> !children_all_before(join(names.take(m), '/'), after),
{
    if let Some(after) = q.after {
        let part = join(names.take(m), '/');
        if children_all_before(part, after) {
            assert(names.take(m) + names.skip(m) =~= names);
            lemma_join_concat(names.take(m), names.skip(m), '/');
            law_children_all_before(part, after);
            assert(key_lt(part.push('/') + join(names.skip(m), '/'), after));
            lemma_key_lt_asymmetric(join(names, '/'), after);
        }
    }
}

/// Every directory on the way from the prefix's directory to a wanted file has to be opened.
proof fn lemma_way_is_open(
    ns: Namespace,
    q: Query,
    start: Seq<char>,
    root: Seq<Seq<char>>,
    top: Seq<Seq<char>>,
    below: Seq<Seq<char>>,
    s: FileStatus,
)
    requires
        grounded(ns, q, start, root, top),
        found(ns, root + top, below, s),
        q.wants(s),
    ensures
        way_open(q, root + top, below),
{
    let names = top + below;
    let all = root + names;
    lemma_found(ns, root + top, below, s);
    assert(root + top + below =~= all);
    assert forall|j: int| 0 <= j < names.len() implies is_name(#[trigger] names[j]) by {
        assert(all[j + root.len()] == names[j]);
    }
    assert forall|i: int| 1 <= i < below.len() implies q.opens_dir(
        #[trigger] way_dir(root + top, below, i),
    ) by {
        let m = top.len() as int + i;
        let head = names.take(m);
        assert(head =~= top + below.take(i));
        assert(root + top + below.take(i) =~= root + head);
        assert forall|j: int| 0 <= j < (root + head).len() implies is_name(
            #[trigger] (root + head)[j],
        ) by {
            assert(all[j] == (root + head)[j]);
        }
        lemma_key_order(root, names, head);
        assert(names.take(top.len() as int) =~= top);
        lemma_prefix_decided(root, q.prefix, names, top.len() as int, m);
        lemma_marker_not_past(q, names, m);
    }
}

/// The part of a directory's way that leads to another is open as well.
proof fn lemma_way_front(q: Query, start: Seq<Seq<char>>, below: Seq<Seq<char>>)
    requires
        below.len() > 1,
        way_open(q, start, below.drop_last()),
        q.opens_dir(abs_path(start + below.drop_last())),
    ensures
        way_open(q, start, below),
{
    let up = below.drop_last();
    assert forall|i: int| 1 <= i < below.len() implies q.opens_dir(
        #[trigger] way_dir(start, below, i),
    ) by {
        assert(below.take(i) =~= up.take(i));
        if i < up.len() {
            assert(q.opens_dir(way_dir(start, up, i)));
        } else {
            assert(up.take(i) =~= up);
        }
    }
}

// ---------------------------------------------------------------------------------------
// The invariant of a merge
// ---------------------------------------------------------------------------------------

/// The directory at `path` was opened: its answer is in.
pub open spec fn opened(m: Merge, taken: Seq<FileStatus>, path: Seq<char>) -> bool {
    ||| path == m.start && m.seeded && !(m.awaited is Start)
    ||| exists|i: int|
        0 <= i < taken.len() && (#[trigger] taken[i]).path@ == path && m.query.opens(taken[i])
            && m.awaited != Awaited::Dir(path)
}

/// The merge has come across `s`.
pub open spec fn met(m: Merge, taken: Seq<FileStatus>, s: FileStatus) -> bool {
    taken.contains(s) || m.frontier.contains(s)
}

/// `s` was found below the start, in a directory that was opened.
pub open spec fn placed(
    ns: Namespace,
    m: Merge,
    taken: Seq<FileStatus>,
    start: Seq<Seq<char>>,
    s: FileStatus,
) -> bool {
    exists|below: Seq<Seq<char>>| #[trigger]
        found(ns, start, below, s) && opened(m, taken, abs_path(start + below.drop_last()))
}

/// Paths strictly ascend.
pub open spec fn ascending(s: Seq<FileStatus>) -> bool {
    forall|i: int, j: int|
        0 <= i < j < s.len() ==> key_lt((#[trigger] s[i]).path@, (#[trigger] s[j]).path@)
}

/// No two entries share a path.
pub open spec fn distinct(f: Multiset<FileStatus>) -> bool {
    &&& forall|x: FileStatus| #[trigger] f.count(x) <= 1
    &&& forall|x: FileStatus, y: FileStatus| #[trigger]
        f.contains(x) && #[trigger] f.contains(y) && x.path@ == y.path@ ==> x == y
}

/// Everything in `taken` sorts before everything in `f`.
pub open spec fn all_before(taken: Seq<FileStatus>, f: Multiset<FileStatus>) -> bool {
    forall|i: int, y: FileStatus|
        0 <= i < taken.len() && #[trigger] f.contains(y) ==> key_lt(
            (#[trigger] taken[i]).path@,
            y.path@,
        )
}

/// Whatever an opened directory lists was met.
pub open spec fn closed_under(ns: Namespace, m: Merge, taken: Seq<FileStatus>) -> bool {
    forall|d: Seq<char>, s: FileStatus|
        opened(m, taken, d) && ns.dom().contains(d) && #[trigger] ns[d].contains(s) ==> met(
            m,
            taken,
            s,
        )
}

/// The merge `m` over `ns`, below the directory `start`, has taken `taken` so far.
pub open spec fn tracks(
    ns: Namespace,
    m: Merge,
    start: Seq<Seq<char>>,
    taken: Seq<FileStatus>,
) -> bool {
    &&& m.wf()
    &&& m.start == abs_path(start)
    &&& ascending(taken)
    &&& distinct(m.frontier)
    &&& all_before(taken, m.frontier)
    &&& closed_under(ns, m, taken)
    &&& forall|s: FileStatus| #[trigger] met(m, taken, s) ==> placed(ns, m, taken, start, s)
    &&& !m.seeded || m.awaited is Start ==> taken.len() == 0
    &&& match m.awaited {
        Awaited::Dir(d) => taken.len() > 0 && taken.last().path@ == d && m.query.opens(
            taken.last(),
        ),
        _ => true,
    }
}

/// Everything wanted that sorts up to what was taken last was taken; at the end of the
/// merge, everything wanted.
pub proof fn lemma_nothing_missed(
    ns: Namespace,
    m: Merge,
    start: Seq<Seq<char>>,
    taken: Seq<FileStatus>,
    below: Seq<Seq<char>>,
    file: FileStatus,
    i: int,
    s: FileStatus,
)
    requires
        tracks(ns, m, start, taken),
        found(ns, start, below, file),
        way_open(m.query, start, below),
        1 <= i <= below.len(),
        found(ns, start, below.take(i), s),
        i < below.len() ==> s.isdir,
        m.seeded,
        ({
            ||| m.frontier == Multiset::<FileStatus>::empty() && m.awaited is Nothing
            ||| taken.len() > 0 && key_le(file.path@, taken.last().path@)
        }),
    ensures
        taken.contains(s),
    decreases i,
{
    lemma_found(ns, start, below, file);
    lemma_found(ns, start, below.take(i), s);
    let way = below.take(i);
    let up = below.take(i - 1);
    assert(way.drop_last() =~= up);
    let dir = abs_path(start + up);
    let rest = below.skip(i - 1);
    assert(start + up + rest =~= start + below);
    lemma_dir_before(start + up, rest);
    if i < below.len() {
        let last = below.skip(i);
        assert(start + way + last =~= start + below);
        lemma_dir_before(start + way, last);
    } else {
        assert(way =~= below);
    }
    assert(opened(m, taken, dir)) by {
        if i == 1 {
            assert(start + up =~= start);
        } else {
            let d = lemma_found_parent(ns, start, way, s);
            lemma_found(ns, start, up, d);
            lemma_nothing_missed(ns, m, start, taken, below, file, i - 1, d);
            assert(m.query.opens_dir(way_dir(start, below, i - 1)));
            let k = choose|k: int| 0 <= k < taken.len() && taken[k] == d;
            if m.awaited == Awaited::Dir(dir) {
                assert(key_lt(taken.last().path@, file.path@));
                lemma_key_lt_asymmetric(taken.last().path@, file.path@);
            }
            assert(taken[k].path@ == dir);
        }
    }
    assert(ns[dir].contains(s));
    assert(met(m, taken, s));
    if m.frontier.contains(s) {
        let n = taken.len() - 1;
        assert(key_lt(taken[n].path@, s.path@));
        if i < below.len() {
            lemma_key_lt_transitive(taken[n].path@, s.path@, file.path@);
        }
        lemma_key_lt_asymmetric(taken[n].path@, file.path@);
    }
}

/// What is taken from a frontier was in it, and is gone from it.
pub proof fn lemma_takes_apart(
    before: Multiset<FileStatus>,
    taken: Seq<FileStatus>,
    after: Multiset<FileStatus>,
)
    requires
        takes(before, taken, after),
        distinct(before),
    ensures
        forall|s: FileStatus| #[trigger]
            before.contains(s) <==> taken.contains(s) || after.contains(s),
        distinct(after),
        ascending(taken),
        all_before(taken, after),
{
    broadcast use vstd::seq_lib::group_to_multiset_ensures;

    let ms = taken.to_multiset();
    assert forall|s: FileStatus| #[trigger] before.contains(s) <==> taken.contains(s)
        || after.contains(s) by {
        assert(before.count(s) == ms.count(s) + after.count(s));
    }
    assert forall|x: FileStatus| #[trigger] after.count(x) <= 1 by {
        assert(before.count(x) == ms.count(x) + after.count(x));
        assert(before.count(x) <= 1);
    }
    assert forall|x: FileStatus, y: FileStatus| #[trigger]
        after.contains(x) && #[trigger] after.contains(y) && x.path@ == y.path@ implies x == y by {
        assert(before.contains(x) && before.contains(y));
    }
    assert(taken.no_duplicates()) by {
        assert forall|x: FileStatus| ms.contains(x) implies ms.count(x) == 1 by {
            assert(before.count(x) == ms.count(x) + after.count(x));
            assert(before.count(x) <= 1);
        }
        taken.lemma_multiset_has_no_duplicates_conv();
    }
    assert forall|i: int, j: int| 0 <= i < j < taken.len() implies key_lt(
        (#[trigger] taken[i]).path@,
        (#[trigger] taken[j]).path@,
    ) by {
        assert(key_le(taken[i].sort_key(), taken[j].sort_key()));
        assert(taken.contains(taken[i]) && taken.contains(taken[j]));
        assert(before.contains(taken[i]) && before.contains(taken[j]));
    }
    assert forall|i: int, y: FileStatus|
        0 <= i < taken.len() && #[trigger] after.contains(y) implies key_lt(
        (#[trigger] taken[i]).path@,
        y.path@,
    ) by {
        let x = taken[i];
        assert(taken.contains(x));
        assert(key_le(x.sort_key(), y.sort_key()));
        assert(before.contains(x) && before.contains(y));
        if x.path@ == y.path@ {
            assert(x == y);
            assert(before.count(x) == ms.count(x) + after.count(x));
            assert(before.count(x) <= 1);
        }
    }
}

/// Taking entries keeps track, up to and with the first directory that must be opened.
pub proof fn lemma_taking(
    ns: Namespace,
    m: Merge,
    start: Seq<Seq<char>>,
    taken: Seq<FileStatus>,
    more: Seq<FileStatus>,
    post: Merge,
)
    requires
        tracks(ns, m, start, taken),
        m.seeded,
        m.awaited is Nothing,
        takes(m.frontier, more, post.frontier),
        post.wf(),
        post.query == m.query,
        post.start == m.start,
        post.seeded,
        ({
            ||| post.awaited is Nothing && opens_none(m.query, more)
            ||| more.len() > 0 && post.awaited == Awaited::Dir(more.last().path@) && m.query.opens(
                more.last(),
            ) && opens_none(m.query, more.drop_last())
        }),
    ensures
        tracks(ns, post, start, taken + more),
{
    let all = taken + more;
    lemma_takes_apart(m.frontier, more, post.frontier);
    assert forall|i: int, j: int| 0 <= i < j < all.len() implies key_lt(
        (#[trigger] all[i]).path@,
        (#[trigger] all[j]).path@,
    ) by {
        if j < taken.len() {
            assert(all[i] == taken[i] && all[j] == taken[j]);
        } else if i < taken.len() {
            let y = more[j - taken.len()];
            assert(more.contains(y));
            assert(m.frontier.contains(y));
            assert(key_lt(taken[i].path@, y.path@));
        } else {
            assert(all[i] == more[i - taken.len()] && all[j] == more[j - taken.len()]);
        }
    }
    assert forall|i: int, y: FileStatus|
        0 <= i < all.len() && #[trigger] post.frontier.contains(y) implies key_lt(
        (#[trigger] all[i]).path@,
        y.path@,
    ) by {
        if i < taken.len() {
            assert(m.frontier.contains(y));
            assert(key_lt(taken[i].path@, y.path@));
        } else {
            assert(all[i] == more[i - taken.len()]);
        }
    }
    assert forall|s: FileStatus| met(m, taken, s) <==> #[trigger] met(post, all, s) by {
        if all.contains(s) {
            let i = choose|i: int| 0 <= i < all.len() && all[i] == s;
            if i < taken.len() {
                assert(taken[i] == s);
            } else {
                assert(more[i - taken.len()] == s);
            }
        }
        if taken.contains(s) {
            let i = choose|i: int| 0 <= i < taken.len() && taken[i] == s;
            assert(all[i] == s);
        }
        if more.contains(s) {
            let i = choose|i: int| 0 <= i < more.len() && more[i] == s;
            assert(all[i + taken.len()] == s);
        }
    }
    assert forall|p: Seq<char>| opened(m, taken, p) <==> #[trigger] opened(post, all, p) by {
        if exists|i: int|
            0 <= i < taken.len() && (#[trigger] taken[i]).path@ == p && m.query.opens(taken[i])
                && m.awaited != Awaited::Dir(p) {
            let i = choose|i: int|
                0 <= i < taken.len() && (#[trigger] taken[i]).path@ == p && m.query.opens(taken[i])
                    && m.awaited != Awaited::Dir(p);
            assert(all[i] == taken[i]);
            if post.awaited == Awaited::Dir(p) {
                let y = more.last();
                assert(more.contains(y));
                assert(m.frontier.contains(y));
                assert(key_lt(taken[i].path@, y.path@));
                lemma_key_lt_irreflexive(p);
            }
        }
        if exists|i: int|
            0 <= i < all.len() && (#[trigger] all[i]).path@ == p && m.query.opens(all[i])
                && post.awaited != Awaited::Dir(p) {
            let i = choose|i: int|
                0 <= i < all.len() && (#[trigger] all[i]).path@ == p && m.query.opens(all[i])
                    && post.awaited != Awaited::Dir(p);
            if i < taken.len() {
                assert(taken[i] == all[i]);
            } else {
                let k = i - taken.len();
                assert(more[k] == all[i]);
                if k < more.len() - 1 {
                    assert(more.drop_last()[k] == more[k]);
                }
            }
        }
    }
    assert forall|s: FileStatus| #[trigger] met(post, all, s) implies placed(
        ns,
        post,
        all,
        start,
        s,
    ) by {
        assert(met(m, taken, s));
        let below = choose|below: Seq<Seq<char>>| #[trigger]
            found(ns, start, below, s) && opened(m, taken, abs_path(start + below.drop_last()));
        assert(found(ns, start, below, s) && opened(
            post,
            all,
            abs_path(start + below.drop_last()),
        ));
    }
    assert forall|d: Seq<char>, s: FileStatus|
        opened(post, all, d) && ns.dom().contains(d) && #[trigger] ns[d].contains(s) implies met(
        post,
        all,
        s,
    ) by {
        assert(opened(m, taken, d));
        assert(met(m, taken, s));
    }
}

/// The path that the merge waits for.
pub open spec fn awaited_path(m: Merge) -> Seq<char> {
    match m.awaited {
        Awaited::Dir(d) => d,
        _ => m.start,
    }
}

/// The names from the start to the awaited directory.
proof fn lemma_awaited_names(
    ns: Namespace,
    m: Merge,
    start: Seq<Seq<char>>,
    taken: Seq<FileStatus>,
) -> (below: Seq<Seq<char>>)
    requires
        all_names(start),
        tracks(ns, m, start, taken),
        !(m.awaited is Nothing),
    ensures
        all_names(start + below),
        awaited_path(m) == abs_path(start + below),
        m.awaited is Start ==> below.len() == 0,
        m.awaited is Dir ==> found(ns, start, below, taken.last()),
{
    if m.awaited is Start {
        let below = Seq::<Seq<char>>::empty();
        assert(start + below =~= start);
        below
    } else {
        let last = taken.last();
        assert(taken.contains(last));
        assert(met(m, taken, last));
        let below = choose|below: Seq<Seq<char>>| #[trigger]
            found(ns, start, below, last) && opened(m, taken, abs_path(start + below.drop_last()));
        lemma_found(ns, start, below, last);
        below
    }
}

/// An answer opens the awaited directory and no other.
proof fn lemma_answer_opens(m: Merge, taken: Seq<FileStatus>, post: Merge, path: Seq<char>)
    requires
        m.wf(),
        !(m.awaited is Nothing),
        m.awaited matches Awaited::Dir(d) ==> taken.len() > 0 && taken.last().path@ == d
            && m.query.opens(taken.last()),
        m.awaited is Start ==> taken.len() == 0,
        post.awaited is Nothing,
        post.query == m.query,
        post.start == m.start,
        post.seeded == m.seeded,
    ensures
        opened(post, taken, path) <==> opened(m, taken, path) || path == awaited_path(m),
{
    if opened(m, taken, path) {
        if !(path == m.start && m.seeded && !(m.awaited is Start)) {
            let i = choose|i: int|
                0 <= i < taken.len() && (#[trigger] taken[i]).path@ == path && m.query.opens(
                    taken[i],
                ) && m.awaited != Awaited::Dir(path);
            assert(taken[i].path@ == path);
        }
    }
    if path == awaited_path(m) && m.awaited is Dir {
        let n = taken.len() - 1;
        assert(taken[n].path@ == path);
    }
    if opened(post, taken, path) {
        if !(path == post.start && post.seeded && !(post.awaited is Start)) {
            let i = choose|i: int|
                0 <= i < taken.len() && (#[trigger] taken[i]).path@ == path && m.query.opens(
                    taken[i],
                ) && post.awaited != Awaited::Dir(path);
            assert(taken[i].path@ == path);
        }
    }
}

/// A child of the directory that `below` leads to is found under one more name.
proof fn lemma_child_found(
    ns: Namespace,
    start: Seq<Seq<char>>,
    below: Seq<Seq<char>>,
    dir: Option<FileStatus>,
    s: FileStatus,
) -> (name: Seq<char>)
    requires
        is_namespace(ns),
        all_names(start + below),
        match dir {
            Some(d) => d.isdir && found(ns, start, below, d),
            None => below.len() == 0,
        },
        ns.dom().contains(abs_path(start + below)),
        ns[abs_path(start + below)].contains(s),
    ensures
        found(ns, start, below.push(name), s),
{
    let p = abs_path(start + below);
    let i = choose|i: int| 0 <= i < ns[p].len() && ns[p][i] == s;
    assert(is_child(p, ns[p][i].path@));
    let (names, name) = choose|names: Seq<Seq<char>>, name: Seq<char>|
        all_names(names) && is_name(name) && p == abs_path(names) && s.path@
            == #[trigger] abs_path(names.push(name));
    lemma_abs_path_injective(names, start + below);
    let way = below.push(name);
    let all = start + way;
    assert(all =~= (start + below).push(name));
    assert forall|j: int| 0 <= j < all.len() implies is_name(#[trigger] all[j]) by {
        if j < (start + below).len() {
            assert(all[j] == (start + below)[j]);
        }
    }
    assert(way.take(below.len() as int) =~= below);
    assert(way.take(way.len() as int) =~= way);
    assert(listed_at(ns, start, way, way.len() - 1, s));
    assert forall|n: int| 0 <= n < way.len() - 1 implies #[trigger] leads_on(ns, start, way, n) by {
        let d = dir->0;
        assert(way.take(n) =~= below.take(n));
        assert(way.take(n + 1) =~= below.take(n + 1));
        if n < below.len() - 1 {
            assert(leads_on(ns, start, below, n));
            let e = choose|e: FileStatus| e.isdir && #[trigger] listed_at(ns, start, below, n, e);
            assert(listed_at(ns, start, way, n, e));
        } else {
            assert(listed_at(ns, start, way, n, d));
        }
    }
    name
}

/// The answer of the namespace keeps track.
pub proof fn lemma_answering(
    ns: Namespace,
    m: Merge,
    start: Seq<Seq<char>>,
    taken: Seq<FileStatus>,
    statuses: Seq<FileStatus>,
    post: Merge,
)
    requires
        is_namespace(ns),
        all_names(start),
        tracks(ns, m, start, taken),
        !(m.awaited is Nothing),
        ns.dom().contains(awaited_path(m)),
        statuses.to_multiset() == ns[awaited_path(m)].to_multiset(),
        post == (Merge {
            frontier: m.frontier.add(statuses.to_multiset()),
            awaited: Awaited::Nothing,
            ..m
        }),
    ensures
        tracks(ns, post, start, taken),
{
    broadcast use vstd::seq_lib::group_to_multiset_ensures;

    let p = awaited_path(m);
    let kids = ns[p];
    let below = lemma_awaited_names(ns, m, start, taken);
    let dir = if m.awaited is Start {
        None
    } else {
        Some(taken.last())
    };
    assert forall|x: Seq<char>| #[trigger]
        opened(post, taken, x) <==> opened(m, taken, x) || x == p by {
        lemma_answer_opens(m, taken, post, x);
    }
    assert forall|s: FileStatus| #[trigger]
        met(post, taken, s) <==> met(m, taken, s) || kids.contains(s) by {
        assert(post.frontier.count(s) == m.frontier.count(s) + kids.to_multiset().count(s));
    }
    // A child of the awaited directory is new to the frontier.
    assert forall|x: FileStatus, y: FileStatus| #[trigger]
        kids.contains(x) && #[trigger] m.frontier.contains(y) implies x.path@ != y.path@ by {
        if x.path@ == y.path@ {
            let name = lemma_child_found(ns, start, below, dir, x);
            lemma_found(ns, start, below.push(name), x);
            assert(met(m, taken, y));
            let way = choose|way: Seq<Seq<char>>| #[trigger]
                found(ns, start, way, y) && opened(m, taken, abs_path(start + way.drop_last()));
            lemma_found(ns, start, way, y);
            lemma_abs_path_injective(start + below.push(name), start + way);
            assert(way =~= below.push(name)) by {
                assert((start + way).skip(start.len() as int) =~= way);
                assert((start + below.push(name)).skip(start.len() as int) =~= below.push(name));
            }
            assert(way.drop_last() =~= below);
            assert(opened(m, taken, p));
            assert(p == m.start);
            assert(start + Seq::<Seq<char>>::empty() =~= start);
            lemma_abs_path_injective(start + below, start);
            assert((start + below).len() == start.len());
            assert(false);
        }
    }
    assert(kids.no_duplicates()) by {
        assert forall|i: int, j: int|
            0 <= i < kids.len() && 0 <= j < kids.len() && i != j implies kids[i] != kids[j] by {
            if i < j {
                assert(ns[p][i].path@ != ns[p][j].path@);
            } else {
                assert(ns[p][j].path@ != ns[p][i].path@);
            }
        }
    }
    kids.lemma_multiset_has_no_duplicates();
    assert(distinct(post.frontier)) by {
        assert forall|x: FileStatus| #[trigger] post.frontier.count(x) <= 1 by {
            assert(post.frontier.count(x) == m.frontier.count(x) + kids.to_multiset().count(x));
            assert(m.frontier.count(x) <= 1);
            assert(kids.to_multiset().contains(x) ==> kids.to_multiset().count(x) == 1);
            if m.frontier.contains(x) && kids.contains(x) {
                assert(x.path@ != x.path@);
            }
        }
        assert forall|x: FileStatus, y: FileStatus| #[trigger]
            post.frontier.contains(x) && #[trigger] post.frontier.contains(y) && x.path@
                == y.path@ implies x == y by {
            assert(post.frontier.count(x) == m.frontier.count(x) + kids.to_multiset().count(x));
            assert(post.frontier.count(y) == m.frontier.count(y) + kids.to_multiset().count(y));
            if kids.contains(x) && kids.contains(y) {
                let i = choose|i: int| 0 <= i < kids.len() && kids[i] == x;
                let j = choose|j: int| 0 <= j < kids.len() && kids[j] == y;
                if i < j {
                    assert(ns[p][i].path@ != ns[p][j].path@);
                } else if j < i {
                    assert(ns[p][j].path@ != ns[p][i].path@);
                }
            } else if kids.contains(x) {
                assert(m.frontier.contains(y));
            } else if kids.contains(y) {
                assert(m.frontier.contains(x));
            } else {
                assert(m.frontier.contains(x) && m.frontier.contains(y));
            }
        }
    }
    assert forall|i: int, y: FileStatus|
        0 <= i < taken.len() && #[trigger] post.frontier.contains(y) implies key_lt(
        (#[trigger] taken[i]).path@,
        y.path@,
    ) by {
        assert(post.frontier.count(y) == m.frontier.count(y) + kids.to_multiset().count(y));
        if !m.frontier.contains(y) {
            let name = lemma_child_found(ns, start, below, dir, y);
            lemma_found(ns, start, below.push(name), y);
            assert(start + below.push(name) =~= start + below + seq![name]);
            lemma_dir_before(start + below, seq![name]);
            let n = taken.len() - 1;
            if i < n {
                assert(key_lt(taken[i].path@, taken[n].path@));
                lemma_key_lt_transitive(taken[i].path@, p, y.path@);
            }
        }
    }
    assert forall|s: FileStatus| #[trigger] met(post, taken, s) implies placed(
        ns,
        post,
        taken,
        start,
        s,
    ) by {
        if kids.contains(s) {
            let name = lemma_child_found(ns, start, below, dir, s);
            let way = below.push(name);
            assert(way.drop_last() =~= below);
            assert(opened(post, taken, p));
            assert(found(ns, start, way, s) && opened(
                post,
                taken,
                abs_path(start + way.drop_last()),
            ));
        } else {
            assert(met(m, taken, s));
            let way = choose|way: Seq<Seq<char>>| #[trigger]
                found(ns, start, way, s) && opened(m, taken, abs_path(start + way.drop_last()));
            assert(found(ns, start, way, s) && opened(
                post,
                taken,
                abs_path(start + way.drop_last()),
            ));
        }
    }
    assert forall|d: Seq<char>, s: FileStatus|
        opened(post, taken, d) && ns.dom().contains(d) && #[trigger] ns[d].contains(s) implies met(
        post,
        taken,
        s,
    ) by {
        if d != p {
            assert(opened(m, taken, d));
            assert(met(m, taken, s));
        }
    }
}

/// A directory that has no listing is passed over.
pub proof fn lemma_unanswered(
    ns: Namespace,
    m: Merge,
    start: Seq<Seq<char>>,
    taken: Seq<FileStatus>,
    post: Merge,
)
    requires
        tracks(ns, m, start, taken),
        !(m.awaited is Nothing),
        !ns.dom().contains(awaited_path(m)),
        post.wf(),
        post.awaited is Nothing,
        post.query == m.query,
        post.start == m.start,
        post.seeded,
        post.frontier == m.frontier,
    ensures
        tracks(ns, post, start, taken),
{
    let p = awaited_path(m);
    assert forall|x: Seq<char>| #[trigger]
        opened(post, taken, x) <==> opened(m, taken, x) || x == p by {
        lemma_answer_opens(m, taken, post, x);
    }
    assert forall|s: FileStatus| #[trigger] met(post, taken, s) implies placed(
        ns,
        post,
        taken,
        start,
        s,
    ) by {
        assert(met(m, taken, s));
        let way = choose|way: Seq<Seq<char>>| #[trigger]
            found(ns, start, way, s) && opened(m, taken, abs_path(start + way.drop_last()));
        assert(found(ns, start, way, s) && opened(post, taken, abs_path(start + way.drop_last())));
    }
    assert forall|d: Seq<char>, s: FileStatus|
        opened(post, taken, d) && ns.dom().contains(d) && #[trigger] ns[d].contains(s) implies met(
        post,
        taken,
        s,
    ) by {
        assert(opened(m, taken, d));
        assert(met(m, taken, s));
    }
}

/// Whatever was met was come to by a way that is open.
proof fn lemma_met_way(
    ns: Namespace,
    m: Merge,
    start: Seq<Seq<char>>,
    taken: Seq<FileStatus>,
    below: Seq<Seq<char>>,
    s: FileStatus,
)
    requires
        tracks(ns, m, start, taken),
        met(m, taken, s),
        found(ns, start, below, s),
    ensures
        way_open(m.query, start, below),
    decreases below.len(),
{
    if below.len() > 1 {
        let way = choose|way: Seq<Seq<char>>| #[trigger]
            found(ns, start, way, s) && opened(m, taken, abs_path(start + way.drop_last()));
        lemma_found(ns, start, way, s);
        lemma_found(ns, start, below, s);
        lemma_same_way(start, way, below);
        let up = below.drop_last();
        let dir = abs_path(start + up);
        let d = lemma_found_parent(ns, start, below, s);
        lemma_dir_before(start, up);
        lemma_key_lt_irreflexive(dir);
        let i = choose|i: int|
            0 <= i < taken.len() && (#[trigger] taken[i]).path@ == dir && m.query.opens(taken[i])
                && m.awaited != Awaited::Dir(dir);
        assert(taken.contains(taken[i]));
        assert(met(m, taken, taken[i]));
        let other = choose|other: Seq<Seq<char>>| #[trigger]
            found(ns, start, other, taken[i]) && opened(
                m,
                taken,
                abs_path(start + other.drop_last()),
            );
        lemma_found(ns, start, other, taken[i]);
        lemma_same_way(start, other, up);
        lemma_met_way(ns, m, start, taken, up, taken[i]);
        lemma_way_front(m.query, start, below);
    }
}

/// How something met was found.
pub proof fn lemma_met_found(
    ns: Namespace,
    m: Merge,
    start: Seq<Seq<char>>,
    taken: Seq<FileStatus>,
    s: FileStatus,
) -> (below: Seq<Seq<char>>)
    requires
        tracks(ns, m, start, taken),
        met(m, taken, s),
    ensures
        found(ns, start, below, s),
        s.path@ == abs_path(start + below),
        way_open(m.query, start, below),
{
    let below = choose|below: Seq<Seq<char>>| #[trigger]
        found(ns, start, below, s) && opened(m, taken, abs_path(start + below.drop_last()));
    lemma_found(ns, start, below, s);
    lemma_met_way(ns, m, start, taken, below, s);
    below
}

/// Nothing can be taken from an empty frontier.
pub proof fn lemma_takes_nothing(taken: Seq<FileStatus>, after: Multiset<FileStatus>)
    requires
        takes(Multiset::empty(), taken, after),
    ensures
        taken.len() == 0,
{
    broadcast use vstd::seq_lib::group_to_multiset_ensures;

    if taken.len() > 0 {
        assert(taken.contains(taken[0]));
        assert(taken.to_multiset().add(after).count(taken[0]) > 0);
    }
}

// ---------------------------------------------------------------------------------------
// Laws
// ---------------------------------------------------------------------------------------

/// The answer to a listing of `dir` is that of the namespace, in whatever order. A directory
/// without one fails to be listed.
pub open spec fn agrees(
    ns: Namespace,
    dir: Seq<char>,
    answer: Result<Seq<FileStatus>, HdfsError>,
) -> bool {
    match answer {
        Ok(statuses) => ns.dom().contains(dir) && statuses.to_multiset() == ns[dir].to_multiset(),
        Err(_) => !ns.dom().contains(dir),
    }
}

/// One round of a listing: the directory that it asked for, its state while it waited, the
/// answer, and its state then.
pub struct Round {
    pub dir: String,
    pub waiting: Merge,
    pub answer: Result<Seq<FileStatus>, HdfsError>,
    pub after: Merge,
}

/// From `before`, working towards the page asks for a directory, and the namespace answers.
pub open spec fn is_round(ns: Namespace, max_keys: nat, before: Merge, r: Round) -> bool {
    &&& before.steps(max_keys, r.waiting, PageStep::List(r.dir))
    &&& agrees(ns, r.dir@, r.answer)
    &&& r.waiting.answered(r.answer, r.after, Ok(()))
}

/// The state of a fresh listing after the first `i` of its rounds.
pub open spec fn state_after(q: Query, start: Seq<char>, rounds: Seq<Round>, i: int) -> Merge {
    if i <= 0 {
        Merge::fresh(q, start)
    } else {
        rounds[i - 1].after
    }
}

/// The rounds of a fresh listing over the namespace, one after the other.
pub open spec fn is_run(
    ns: Namespace,
    q: Query,
    start: Seq<char>,
    max_keys: nat,
    rounds: Seq<Round>,
) -> bool {
    forall|i: int|
        0 <= i < rounds.len() ==> is_round(
            ns,
            max_keys,
            state_after(q, start, rounds, i),
            #[trigger] rounds[i],
        )
}

/// The key of a listed file.
pub open spec fn key_in(q: Query, s: FileStatus) -> Seq<char> {
    key_of_path(q.root, s.path@)->0
}

/// `entries`, the listing entries of `files`, are the first `max_keys` keys of the listing in
/// byte order, each once, or all of them if there are no more than that; `truncated` tells
/// which.
pub open spec fn is_page_of(
    ns: Namespace,
    q: Query,
    start: Seq<char>,
    max_keys: nat,
    files: Seq<FileStatus>,
    entries: Seq<ListEntry>,
    truncated: bool,
) -> bool {
    &&& lists(q.root, files, entries)
    &&& forall|i: int| 0 <= i < files.len() ==> reached(ns, q, start, #[trigger] files[i])
    &&& forall|i: int, j: int|
        0 <= i < j < entries.len() ==> key_lt(
            (#[trigger] entries[i]).key@,
            (#[trigger] entries[j]).key@,
        )
    &&& forall|s: FileStatus| #[trigger]
        reached(ns, q, start, s) && !files.contains(s) ==> truncated && forall|i: int|
            0 <= i < entries.len() ==> key_lt((#[trigger] entries[i]).key@, key_in(q, s))
    &&& entries.len() <= max_keys
    &&& truncated ==> entries.len() == max_keys && exists|s: FileStatus| #[trigger]
        reached(ns, q, start, s) && !files.contains(s)
}

/// `entries` and `truncated` are the answer to the listing `q` with the limit `max_keys`.
pub open spec fn is_page(
    ns: Namespace,
    q: Query,
    start: Seq<char>,
    max_keys: nat,
    entries: Seq<ListEntry>,
    truncated: bool,
) -> bool {
    exists|files: Seq<FileStatus>| #[trigger]
        is_page_of(ns, q, start, max_keys, files, entries, truncated)
}

/// A run keeps track, and its page holds what was wanted of what was taken.
pub open spec fn on_course(
    ns: Namespace,
    q: Query,
    start: Seq<char>,
    max_keys: nat,
    m: Merge,
    names: Seq<Seq<char>>,
    taken: Seq<FileStatus>,
) -> bool {
    &&& m.query == q
    &&& m.start == start
    &&& m.limit matches Some(n) ==> n == max_keys
    &&& tracks(ns, m, names, taken)
    &&& lists(q.root, q.wanted(taken), m.page)
}

/// The entries of two lists of files, one after the other.
proof fn lemma_lists_concat(
    q: Query,
    a: Seq<FileStatus>,
    x: Seq<ListEntry>,
    b: Seq<FileStatus>,
    y: Seq<ListEntry>,
)
    requires
        lists(q.root, q.wanted(a), x),
        lists(q.root, q.wanted(b), y),
    ensures
        lists(q.root, q.wanted(a + b), x + y),
{
    Seq::filter_distributes_over_add(a, b, |s: FileStatus| q.wants(s));
    let files = q.wanted(a) + q.wanted(b);
    assert(q.wanted(a + b) == files);
    assert forall|i: int| 0 <= i < files.len() implies describes(
        q.root,
        files[i],
        #[trigger] (x + y)[i],
    ) by {
        if i < x.len() {
            assert((x + y)[i] == x[i]);
        } else {
            assert((x + y)[i] == y[i - x.len()]);
        }
    }
}

/// A fresh listing is on course.
pub proof fn lemma_fresh_on_course(
    ns: Namespace,
    q: Query,
    start: Seq<char>,
    max_keys: nat,
    names: Seq<Seq<char>>,
)
    requires
        start == abs_path(names),
    ensures
        on_course(
            ns,
            q,
            start,
            max_keys,
            Merge::fresh(q, start),
            names,
            Seq::<FileStatus>::empty(),
        ),
{
    let m = Merge::fresh(q, start);
    let none = Seq::<FileStatus>::empty();
    reveal(Seq::filter);
    assert forall|s: FileStatus| !#[trigger] met(m, none, s) by {
        assert(!none.contains(s));
        assert(!m.frontier.contains(s));
    }
    assert(forall|d: Seq<char>| !opened(m, none, d));
}

/// A step that asks for a directory keeps a run on course. Besides the start directory, which
/// is asked for first, the directory is what was taken last, and new.
proof fn lemma_asks(
    ns: Namespace,
    q: Query,
    start: Seq<char>,
    max_keys: nat,
    names: Seq<Seq<char>>,
    a: Merge,
    taken: Seq<FileStatus>,
    mid: Merge,
    dir: String,
) -> (next: Seq<FileStatus>)
    requires
        start == abs_path(names),
        on_course(ns, q, start, max_keys, a, names, taken),
        a.steps(max_keys, mid, PageStep::List(dir)),
    ensures
        on_course(ns, q, start, max_keys, mid, names, next),
        !(mid.awaited is Nothing),
        dir@ == awaited_path(mid),
        taken.is_prefix_of(next),
        a.awaited is Nothing && a.seeded ==> mid.awaited is Dir && taken.len() < next.len(),
        !a.seeded ==> mid.awaited is Start,
{
    if !(a.awaited is Nothing) {
        assert(taken.subrange(0, taken.len() as int) =~= taken);
        taken
    } else if !a.seeded {
        assert forall|s: FileStatus| !#[trigger] met(mid, taken, s) by {
            assert(!taken.contains(s));
            assert(!mid.frontier.contains(s));
        }
        assert(forall|d: Seq<char>| !opened(mid, taken, d));
        assert(taken.subrange(0, taken.len() as int) =~= taken);
        taken
    } else {
        let limit = a.limit_or(max_keys);
        let (more, entries) = choose|more: Seq<FileStatus>, entries: Seq<ListEntry>| #[trigger]
            a.reaches_dir(limit, more, entries, mid, dir@);
        lemma_taking(ns, a, names, taken, more, mid);
        lemma_lists_concat(q, taken, a.page, more, entries);
        let next = taken + more;
        assert(next.subrange(0, taken.len() as int) =~= taken);
        next
    }
}

/// The directory at `path` was taken and has to be opened.
pub open spec fn took_dir(q: Query, taken: Seq<FileStatus>, path: Seq<char>) -> bool {
    exists|k: int|
        0 <= k < taken.len() && (#[trigger] taken[k]).path@ == path && q.opens(taken[k])
}

/// The directories that the first `i` rounds asked for: the start directory, then directories
/// that were taken, each after the one before it.
spec fn asked_in_order(
    q: Query,
    start: Seq<char>,
    rounds: Seq<Round>,
    i: int,
    taken: Seq<FileStatus>,
) -> bool {
    &&& i > 0 ==> rounds[0].dir@ == start
    &&& forall|j: int| 1 <= j < i ==> took_dir(q, taken, (#[trigger] rounds[j]).dir@)
    &&& forall|j: int, k: int|
        1 <= j < k < i ==> key_lt((#[trigger] rounds[j]).dir@, (#[trigger] rounds[k]).dir@)
}

/// What was taken stays taken.
pub proof fn lemma_took_dir(
    q: Query,
    taken: Seq<FileStatus>,
    next: Seq<FileStatus>,
    path: Seq<char>,
)
    requires
        taken.is_prefix_of(next),
        took_dir(q, taken, path),
    ensures
        took_dir(q, next, path),
{
    let k = choose|k: int|
        0 <= k < taken.len() && (#[trigger] taken[k]).path@ == path && q.opens(taken[k]);
    assert(next.subrange(0, taken.len() as int)[k] == taken[k]);
    assert(next[k].path@ == path);
}

/// Every state of a run is on course.
proof fn lemma_run(
    ns: Namespace,
    q: Query,
    start: Seq<char>,
    max_keys: nat,
    names: Seq<Seq<char>>,
    rounds: Seq<Round>,
    i: int,
) -> (taken: Seq<FileStatus>)
    requires
        is_namespace(ns),
        all_names(names),
        start == abs_path(names),
        is_run(ns, q, start, max_keys, rounds),
        0 <= i <= rounds.len(),
    ensures
        on_course(ns, q, start, max_keys, state_after(q, start, rounds, i), names, taken),
        asked_in_order(q, start, rounds, i, taken),
        state_after(q, start, rounds, i).awaited is Nothing,
        i > 0 ==> state_after(q, start, rounds, i).seeded,
    decreases i,
{
    if i == 0 {
        lemma_fresh_on_course(ns, q, start, max_keys, names);
        Seq::<FileStatus>::empty()
    } else {
        let m = i - 1;
        let before = state_after(q, start, rounds, m);
        let taken = lemma_run(ns, q, start, max_keys, names, rounds, m);
        let r = rounds[m];
        assert(is_round(ns, max_keys, before, rounds[m]));
        let next = lemma_asks(ns, q, start, max_keys, names, before, taken, r.waiting, r.dir);
        match r.answer {
            Ok(statuses) => {
                lemma_answering(ns, r.waiting, names, next, statuses, r.after);
            },
            Err(e) => {
                lemma_unanswered(ns, r.waiting, names, next, r.after);
            },
        }
        assert forall|j: int| 1 <= j < i implies took_dir(q, next, (#[trigger] rounds[j]).dir@) by {
            if j < m {
                lemma_took_dir(q, taken, next, rounds[j].dir@);
            } else {
                assert(next[next.len() - 1].path@ == r.dir@);
            }
        }
        assert forall|j: int, k: int| 1 <= j < k < i implies key_lt(
            (#[trigger] rounds[j]).dir@,
            (#[trigger] rounds[k]).dir@,
        ) by {
            if k == m {
                assert(took_dir(q, taken, rounds[j].dir@));
                let n = choose|n: int|
                    0 <= n < taken.len() && (#[trigger] taken[n]).path@ == rounds[j].dir@
                        && q.opens(taken[n]);
                assert(next.subrange(0, taken.len() as int)[n] == taken[n]);
                assert(key_lt(next[n].path@, next[next.len() - 1].path@));
            }
        }
        next
    }
}

/// What is wanted of a sequence is what is wanted in it, in the same order.
pub proof fn lemma_wanted(q: Query, taken: Seq<FileStatus>)
    ensures
        forall|s: FileStatus| #[trigger]
            q.wanted(taken).contains(s) <==> taken.contains(s) && q.wants(s),
        ascending(taken) ==> ascending(q.wanted(taken)),
    decreases taken.len(),
{
    reveal(Seq::filter);
    let w = q.wanted(taken);
    if taken.len() > 0 {
        let front = taken.drop_last();
        let last = taken.last();
        lemma_wanted(q, front);
        let v = q.wanted(front);
        assert(w == if q.wants(last) {
            v.push(last)
        } else {
            v
        });
        assert forall|s: FileStatus| #[trigger] w.contains(s) <==> taken.contains(s) && q.wants(
            s,
        ) by {
            if taken.contains(s) {
                let i = choose|i: int| 0 <= i < taken.len() && taken[i] == s;
                if i < front.len() {
                    assert(front[i] == s);
                    assert(front.contains(s));
                }
                if q.wants(s) && front.contains(s) {
                    assert(v.contains(s));
                    let k = choose|k: int| 0 <= k < v.len() && v[k] == s;
                    assert(w[k] == s);
                }
                if q.wants(s) && s == last {
                    assert(w[w.len() - 1] == s);
                }
            }
            if w.contains(s) {
                let k = choose|k: int| 0 <= k < w.len() && w[k] == s;
                if k < v.len() {
                    assert(v.contains(v[k]));
                    let i = choose|i: int| 0 <= i < front.len() && front[i] == s;
                    assert(taken[i] == s);
                } else {
                    assert(taken[taken.len() - 1] == s);
                }
            }
        }
        if ascending(taken) {
            assert forall|i: int, j: int| 0 <= i < j < front.len() implies key_lt(
                (#[trigger] front[i]).path@,
                (#[trigger] front[j]).path@,
            ) by {
                assert(taken[i] == front[i] && taken[j] == front[j]);
            }
            assert(ascending(front));
            assert forall|i: int, j: int| 0 <= i < j < w.len() implies key_lt(
                (#[trigger] w[i]).path@,
                (#[trigger] w[j]).path@,
            ) by {
                assert(w[i] == v[i]);
                if j < v.len() {
                    assert(w[j] == v[j]);
                } else {
                    assert(v.contains(v[i]));
                    let k = choose|k: int| 0 <= k < front.len() && front[k] == v[i];
                    assert(taken[k] == v[i]);
                    assert(taken[taken.len() - 1] == last);
                }
            }
        }
    }
}

/// Two files that belong in a listing: their keys sort like their paths.
pub proof fn lemma_wanted_order(
    q: Query,
    a: FileStatus,
    x: Seq<Seq<char>>,
    b: FileStatus,
    y: Seq<Seq<char>>,
)
    requires
        is_root(q.root),
        q.wants(a),
        q.wants(b),
        all_names(x),
        all_names(y),
        a.path@ == abs_path(x),
        b.path@ == abs_path(y),
    ensures
        key_lt(a.path@, b.path@) <==> key_lt(key_in(q, a), key_in(q, b)),
{
    let root = choose|names: Seq<Seq<char>>| #[trigger]
        all_names(names) && q.root == abs_path(names);
    lemma_keyed_order(root, x, y);
}

/// A page made of everything wanted up to a probe, or up to the end.
proof fn lemma_page(
    ns: Namespace,
    max_keys: nat,
    names: Seq<Seq<char>>,
    m: Merge,
    shown: Seq<FileStatus>,
    probe: Option<FileStatus>,
    entries: Seq<ListEntry>,
)
    requires
        is_root(m.query.root),
        all_names(names),
        m.seeded,
        lists(m.query.root, m.query.wanted(shown), entries),
        entries.len() <= max_keys,
        match probe {
            Some(p) => tracks(ns, m, names, shown.push(p)) && m.query.wants(p)
                && entries.len() == max_keys,
            None => tracks(ns, m, names, shown) && m.awaited is Nothing && m.frontier
                == Multiset::<FileStatus>::empty(),
        },
    ensures
        is_page_of(
            ns,
            m.query,
            m.start,
            max_keys,
            m.query.wanted(shown),
            entries,
            probe is Some,
        ),
        probe matches Some(p) ==> reached(ns, m.query, m.start, p) && !m.query.wanted(
            shown,
        ).contains(p),
{
    let q = m.query;
    let start = m.start;
    let files = q.wanted(shown);
    let taken = match probe {
        Some(p) => shown.push(p),
        None => shown,
    };
    assert forall|i: int| 0 <= i < shown.len() implies taken[i] == #[trigger] shown[i] by {}
    assert(ascending(shown)) by {
        assert forall|i: int, j: int| 0 <= i < j < shown.len() implies key_lt(
            (#[trigger] shown[i]).path@,
            (#[trigger] shown[j]).path@,
        ) by {
            assert(taken[i] == shown[i] && taken[j] == shown[j]);
        }
    }
    lemma_wanted(q, shown);
    assert forall|i: int| 0 <= i < files.len() implies reached(ns, q, start, #[trigger] files[i])
        && taken.contains(files[i]) && exists|x: Seq<Seq<char>>| #[trigger]
        all_names(x) && files[i].path@ == abs_path(x) by {
        assert(files.contains(files[i]));
        let k = choose|k: int| 0 <= k < shown.len() && shown[k] == files[i];
        assert(taken[k] == files[i]);
        assert(met(m, taken, files[i]));
        let below = lemma_met_found(ns, m, names, taken, files[i]);
        assert(found(ns, names, below, files[i]));
        assert(all_names(names + below));
    }
    assert forall|i: int, j: int| 0 <= i < j < entries.len() implies key_lt(
        (#[trigger] entries[i]).key@,
        (#[trigger] entries[j]).key@,
    ) by {
        assert(key_lt(files[i].path@, files[j].path@));
        let x = choose|x: Seq<Seq<char>>| #[trigger] all_names(x) && files[i].path@ == abs_path(x);
        let y = choose|x: Seq<Seq<char>>| #[trigger] all_names(x) && files[j].path@ == abs_path(x);
        lemma_wanted_order(q, files[i], x, files[j], y);
        assert(describes(q.root, files[i], entries[i]));
        assert(describes(q.root, files[j], entries[j]));
    }
    if let Some(p) = probe {
        assert(taken[shown.len() as int] == p);
        assert(met(m, taken, p));
        let below = lemma_met_found(ns, m, names, taken, p);
        assert(found(ns, names, below, p));
        assert(!files.contains(p)) by {
            if files.contains(p) {
                let k = choose|k: int| 0 <= k < shown.len() && shown[k] == p;
                assert(key_lt(taken[k].path@, taken[shown.len() as int].path@));
                lemma_key_lt_irreflexive(p.path@);
            }
        }
        assert(reached(ns, q, start, p) && !files.contains(p));
    }
    assert forall|s: FileStatus| #[trigger]
        reached(ns, q, start, s) && !files.contains(s) implies probe is Some && forall|i: int|
        0 <= i < entries.len() ==> key_lt((#[trigger] entries[i]).key@, key_in(q, s)) by {
        let below = lemma_reached_way(ns, q, start, names, s);
        assert(below.take(below.len() as int) =~= below);
        let n = below.len() as int;
        match probe {
            None => {
                lemma_nothing_missed(ns, m, names, taken, below, s, n, s);
            },
            Some(p) => {
                if key_le(s.path@, p.path@) {
                    lemma_nothing_missed(ns, m, names, taken, below, s, n, s);
                    let k = choose|k: int| 0 <= k < taken.len() && taken[k] == s;
                    if k < shown.len() {
                        assert(shown.contains(shown[k]));
                    }
                    assert(s == p);
                }
                lemma_key_lt_total(p.path@, s.path@);
                assert(key_le(p.path@, s.path@));
                assert forall|i: int| 0 <= i < entries.len() implies key_lt(
                    (#[trigger] entries[i]).key@,
                    key_in(q, s),
                ) by {
                    assert(files.contains(files[i]));
                    let k = choose|k: int| 0 <= k < shown.len() && shown[k] == files[i];
                    assert(key_lt(taken[k].path@, taken[shown.len() as int].path@));
                    if p.path@ != s.path@ {
                        lemma_key_lt_transitive(files[i].path@, p.path@, s.path@);
                    }
                    assert(describes(q.root, files[i], entries[i]));
                    let x = choose|x: Seq<Seq<char>>| #[trigger]
                        all_names(x) && files[i].path@ == abs_path(x);
                    lemma_wanted_order(q, files[i], x, s, names + below);
                }
            },
        }
    }
}

/// The names of the root and of the start directory below it.
proof fn lemma_grounded(ns: Namespace, q: Query, start: Seq<char>) -> (names: (
    Seq<Seq<char>>,
    Seq<Seq<char>>,
))
    requires
        is_namespace(ns),
        is_root(q.root),
        start_of(q.root, q.prefix) == Some(start),
    ensures
        grounded(ns, q, start, names.0, names.1),
{
    let root = choose|names: Seq<Seq<char>>|
        #[trigger] all_names(names) && q.root == abs_path(names);
    let dir = crate::path::dir_part(q.prefix);
    if dir.len() == 0 {
        let top = Seq::<Seq<char>>::empty();
        assert(root + top =~= root);
        (root, top)
    } else {
        law_keys_stay_under_root(q.root, dir);
        let all = choose|names: Seq<Seq<char>>| #[trigger] all_names(names) && start == abs_path(
            names,
        );
        lemma_below_names(root, all);
        let top = all.skip(root.len() as int);
        assert(root + top =~= all);
        (root, top)
    }
}

/// From the directory of the prefix a walk reaches the whole listing.
pub proof fn law_prefix_directory_reaches_all(
    ns: Namespace,
    q: Query,
    start: Seq<char>,
    s: FileStatus,
)
    requires
        is_namespace(ns),
        is_root(q.root),
        start_of(q.root, q.prefix) == Some(start),
    ensures
        reached(ns, q, start, s) <==> belongs(ns, q, start, s),
{
    let (root, top) = lemma_grounded(ns, q, start);
    if belongs(ns, q, start, s) {
        let below = lemma_below_start(ns, q, start, root + top, s);
        lemma_way_is_open(ns, q, start, root, top, below, s);
        assert(found(ns, root + top, below, s));
    }
}

/// A run from a start directory whose path is not spelled by real names: it lists nothing.
proof fn lemma_lone_run(
    ns: Namespace,
    q: Query,
    start: Seq<char>,
    max_keys: nat,
    rounds: Seq<Round>,
    i: int,
)
    requires
        is_namespace(ns),
        !is_root(start),
        is_run(ns, q, start, max_keys, rounds),
        0 <= i <= rounds.len(),
    ensures
        i <= 1,
        i > 0 ==> rounds[0].dir@ == start,
        ({
            let m = state_after(q, start, rounds, i);
            &&& m.start == start
            &&& m.frontier == Multiset::<FileStatus>::empty()
            &&& m.awaited is Nothing
            &&& m.page.len() == 0
            &&& i == 0 ==> !m.seeded && !m.exhausted
            &&& i > 0 ==> m.seeded
        }),
    decreases i,
{
    broadcast use vstd::seq_lib::group_to_multiset_ensures;

    if i > 0 {
        let k = i - 1;
        lemma_lone_run(ns, q, start, max_keys, rounds, k);
        let a = state_after(q, start, rounds, k);
        let r = rounds[k];
        assert(is_round(ns, max_keys, a, rounds[k]));
        if k > 0 {
            let limit = a.limit_or(max_keys);
            let (taken, more) = choose|taken: Seq<FileStatus>, more: Seq<ListEntry>| #[trigger]
                a.reaches_dir(limit, taken, more, r.waiting, r.dir@);
            lemma_takes_nothing(taken, r.waiting.frontier);
        } else if let Ok(statuses) = r.answer {
            lemma_no_children(ns, start, statuses);
            assert(r.after.frontier =~= Multiset::<FileStatus>::empty());
        }
    }
}

/// A path that is not spelled by real names has no children.
pub proof fn lemma_no_children(ns: Namespace, dir: Seq<char>, statuses: Seq<FileStatus>)
    requires
        is_namespace(ns),
        !is_root(dir),
        ns.dom().contains(dir),
        statuses.to_multiset() == ns[dir].to_multiset(),
    ensures
        statuses.to_multiset() == Multiset::<FileStatus>::empty(),
{
    broadcast use vstd::seq_lib::group_to_multiset_ensures;

    if ns[dir].len() > 0 {
        assert(is_child(dir, ns[dir][0].path@));
    }
    assert(ns[dir] =~= Seq::empty());
    assert(ns[dir].to_multiset() =~= Multiset::<FileStatus>::empty());
}

/// Nothing is reached from a path that is not spelled by real names.
pub proof fn lemma_lone_start(ns: Namespace, q: Query, start: Seq<char>, s: FileStatus)
    requires
        !is_root(start),
    ensures
        !reached(ns, q, start, s),
{
    if reached(ns, q, start, s) {
        let (top, below) = choose|top: Seq<Seq<char>>, below: Seq<Seq<char>>|
            all_names(top) && start == abs_path(top) && #[trigger] found(ns, top, below, s)
                && way_open(q, top, below);
        assert(all_names(top));
    }
}

/// What a run comes to from a path that is not spelled by real names.
proof fn lemma_lone_page(
    ns: Namespace,
    q: Query,
    start: Seq<char>,
    max_keys: nat,
    rounds: Seq<Round>,
    post: Merge,
    page: Vec<ListEntry>,
    truncated: bool,
)
    requires
        is_namespace(ns),
        !is_root(start),
        is_run(ns, q, start, max_keys, rounds),
        state_after(q, start, rounds, rounds.len() as int).steps(
            max_keys,
            post,
            PageStep::Page(page, truncated),
        ),
    ensures
        !truncated,
        is_page(ns, q, start, max_keys, page@, truncated),
{
    lemma_lone_run(ns, q, start, max_keys, rounds, rounds.len() as int);
    let m = state_after(q, start, rounds, rounds.len() as int);
    let limit = m.limit_or(max_keys);
    let none = Seq::<FileStatus>::empty();
    if !m.exhausted {
        if truncated {
            let (taken, more) = choose|taken: Seq<FileStatus>, more: Seq<ListEntry>| #[trigger]
                m.fills_page(limit, taken, more, post, page@);
            lemma_takes_nothing(taken, post.frontier);
        } else {
            let (taken, more) = choose|taken: Seq<FileStatus>, more: Seq<ListEntry>| #[trigger]
                m.runs_out(limit, taken, more, post, page@);
            lemma_takes_nothing(taken, Multiset::empty());
            lemma_wanted(m.query, taken);
            if more.len() > 0 {
                assert(m.query.wanted(taken).contains(m.query.wanted(taken)[0]));
            }
        }
    }
    assert forall|s: FileStatus| !#[trigger] reached(ns, q, start, s) by {
        lemma_lone_start(ns, q, start, s);
    }
    assert(is_page_of(ns, q, start, max_keys, none, page@, truncated));
}

/// The flat listing is exact. However often a fresh listing of a prefix has to ask, once it
/// comes to a page, the page holds the files below its start directory whose key begins
/// with the prefix and sorts after the marker: the first `max_keys` of them in UTF-8 byte
/// order, each once. It is marked truncated just when there are more. From the directory of the
/// prefix, directories that vanished or may not be read, and nothing else, are missing; from
/// another, so is what lies below a directory whose key does not begin with the prefix.
pub proof fn law_flat_listing_exact(
    ns: Namespace,
    q: Query,
    start: Seq<char>,
    max_keys: nat,
    rounds: Seq<Round>,
    post: Merge,
    out: PageStep,
)
    requires
        is_namespace(ns),
        is_root(q.root),
        is_run(ns, q, start, max_keys, rounds),
        state_after(q, start, rounds, rounds.len() as int).steps(max_keys, post, out),
    ensures
        out matches PageStep::Page(entries, truncated) ==> is_page(
            ns,
            q,
            start,
            max_keys,
            entries@,
            truncated,
        ),
        start_of(q.root, q.prefix) == Some(start) ==> forall|s: FileStatus|
            reached(ns, q, start, s) <==> #[trigger] belongs(ns, q, start, s),
{
    if start_of(q.root, q.prefix) == Some(start) {
        assert forall|s: FileStatus| reached(ns, q, start, s) <==> #[trigger] belongs(
            ns,
            q,
            start,
            s,
        ) by {
            law_prefix_directory_reaches_all(ns, q, start, s);
        }
    }
    if let PageStep::Page(entries, truncated) = out {
        if !is_root(start) {
            lemma_lone_page(ns, q, start, max_keys, rounds, post, entries, truncated);
        } else {
            let names = choose|names: Seq<Seq<char>>| #[trigger]
                all_names(names) && start == abs_path(names);
            lemma_run_page(ns, q, start, max_keys, names, rounds, post, entries, truncated);
        }
    }
}

/// What a run comes to from a start directory that is spelled by `names`.
proof fn lemma_run_page(
    ns: Namespace,
    q: Query,
    start: Seq<char>,
    max_keys: nat,
    names: Seq<Seq<char>>,
    rounds: Seq<Round>,
    post: Merge,
    entries: Vec<ListEntry>,
    truncated: bool,
)
    requires
        is_namespace(ns),
        is_root(q.root),
        all_names(names),
        start == abs_path(names),
        is_run(ns, q, start, max_keys, rounds),
        state_after(q, start, rounds, rounds.len() as int).steps(
            max_keys,
            post,
            PageStep::Page(entries, truncated),
        ),
    ensures
        is_page(ns, q, start, max_keys, entries@, truncated),
{
    let n = rounds.len() as int;
    let m = state_after(q, start, rounds, n);
    let taken = lemma_run(ns, q, start, max_keys, names, rounds, n);
    if m.exhausted {
        lemma_page(ns, max_keys, names, m, taken, None, entries@);
        assert(is_page_of(ns, q, start, max_keys, q.wanted(taken), entries@, truncated));
    } else {
        let limit = m.limit_or(max_keys);
        if truncated {
            let (t, more) = choose|t: Seq<FileStatus>, more: Seq<ListEntry>| #[trigger]
                m.fills_page(limit, t, more, post, entries@);
            let front = t.drop_last();
            lemma_taking(ns, m, names, taken, t, post);
            lemma_lists_concat(q, taken, m.page, front, more);
            assert(taken + t =~= (taken + front).push(t.last()));
            lemma_page(
                ns,
                max_keys,
                names,
                post,
                taken + front,
                Some(t.last()),
                entries@,
            );
            assert(is_page_of(
                ns,
                q,
                start,
                max_keys,
                q.wanted(taken + front),
                entries@,
                truncated,
            ));
        } else {
            let (t, more) = choose|t: Seq<FileStatus>, more: Seq<ListEntry>| #[trigger]
                m.runs_out(limit, t, more, post, entries@);
            lemma_taking(ns, m, names, taken, t, post);
            lemma_lists_concat(q, taken, m.page, t, more);
            lemma_page(ns, max_keys, names, post, taken + t, None, entries@);
            assert(is_page_of(
                ns,
                q,
                start,
                max_keys,
                q.wanted(taken + t),
                entries@,
                truncated,
            ));
        }
    }
}

/// The walk is bounded: a listing asks for the start directory first, and after it only for
/// directories found below it whose key begins with the prefix and whose keys do not all sort
/// before the marker. It asks for them in byte order, so for none of them twice.
pub proof fn law_only_relevant_dirs_opened(
    ns: Namespace,
    q: Query,
    start: Seq<char>,
    max_keys: nat,
    rounds: Seq<Round>,
)
    requires
        is_namespace(ns),
        is_root(q.root),
        is_run(ns, q, start, max_keys, rounds),
    ensures
        rounds.len() > 0 ==> rounds[0].dir@ == start,
        forall|j: int|
            1 <= j < rounds.len() ==> q.opens_dir((#[trigger] rounds[j]).dir@) && is_found_dir(
                ns,
                start,
                rounds[j].dir@,
            ),
        forall|j: int, k: int|
            1 <= j < k < rounds.len() ==> key_lt(
                (#[trigger] rounds[j]).dir@,
                (#[trigger] rounds[k]).dir@,
            ),
{
    let n = rounds.len() as int;
    if !is_root(start) {
        lemma_lone_run(ns, q, start, max_keys, rounds, n);
    } else {
        let names = choose|names: Seq<Seq<char>>| #[trigger]
            all_names(names) && start == abs_path(names);
        let m = state_after(q, start, rounds, n);
        let taken = lemma_run(ns, q, start, max_keys, names, rounds, n);
        assert forall|j: int| 1 <= j < rounds.len() implies q.opens_dir((#[trigger] rounds[j]).dir@)
            && is_found_dir(ns, start, rounds[j].dir@) by {
            assert(took_dir(q, taken, rounds[j].dir@));
            let k = choose|k: int|
                0 <= k < taken.len() && (#[trigger] taken[k]).path@ == rounds[j].dir@ && q.opens(
                    taken[k],
                );
            assert(taken.contains(taken[k]));
            assert(met(m, taken, taken[k]));
            let below = lemma_met_found(ns, m, names, taken, taken[k]);
            assert(found(ns, names, below, taken[k]));
        }
    }
}

/// A directory at `path` is found below the directory `start`.
pub open spec fn is_found_dir(ns: Namespace, start: Seq<char>, path: Seq<char>) -> bool {
    exists|top: Seq<Seq<char>>, below: Seq<Seq<char>>, s: FileStatus|
        all_names(top) && start == abs_path(top) && #[trigger] found(ns, top, below, s) && s.isdir
            && s.path@ == path
}

/// The walk is lazy: whatever directory a truncated page took to list, besides the start
/// directory, sorts before a file of the listing that comes after the page. No directory
/// beyond the end of the page is opened.
pub proof fn law_walk_is_lazy(
    ns: Namespace,
    q: Query,
    start: Seq<char>,
    max_keys: nat,
    rounds: Seq<Round>,
    post: Merge,
    out: PageStep,
) -> (next: FileStatus)
    requires
        is_namespace(ns),
        is_root(q.root),
        is_run(ns, q, start, max_keys, rounds),
        state_after(q, start, rounds, rounds.len() as int).steps(max_keys, post, out),
        out matches PageStep::Page(_, truncated) && truncated,
    ensures
        reached(ns, q, start, next),
        out matches PageStep::Page(entries, _) ==> forall|i: int|
            0 <= i < entries@.len() ==> key_lt((#[trigger] entries@[i]).key@, key_in(q, next)),
        forall|j: int| 1 <= j < rounds.len() ==> key_lt((#[trigger] rounds[j]).dir@, next.path@),
{
    let page = out->Page_0;
    if !is_root(start) {
        lemma_lone_page(ns, q, start, max_keys, rounds, post, page, true);
    }
    let names = choose|names: Seq<Seq<char>>| #[trigger]
        all_names(names) && start == abs_path(names);
    lemma_lazy(ns, q, start, max_keys, names, rounds, post, page)
}

/// The probe of a page that is full.
proof fn lemma_probe(
    ns: Namespace,
    q: Query,
    start: Seq<char>,
    max_keys: nat,
    names: Seq<Seq<char>>,
    m: Merge,
    taken: Seq<FileStatus>,
    t: Seq<FileStatus>,
    more: Seq<ListEntry>,
    post: Merge,
    entries: Seq<ListEntry>,
)
    requires
        is_root(q.root),
        all_names(names),
        start == abs_path(names),
        on_course(ns, q, start, max_keys, m, names, taken),
        m.seeded,
        m.awaited is Nothing,
        !m.exhausted,
        m.fills_page(m.limit_or(max_keys), t, more, post, entries),
    ensures
        ascending(taken + t),
        reached(ns, q, start, t.last()),
        forall|i: int|
            0 <= i < entries.len() ==> key_lt((#[trigger] entries[i]).key@, key_in(q, t.last())),
{
    let front = t.drop_last();
    let shown = taken + front;
    lemma_taking(ns, m, names, taken, t, post);
    lemma_lists_concat(q, taken, m.page, front, more);
    assert(taken + t =~= shown.push(t.last()));
    lemma_page(ns, max_keys, names, post, shown, Some(t.last()), entries);
}

/// The probe of a truncated page, from a start directory that is spelled by `names`.
proof fn lemma_lazy(
    ns: Namespace,
    q: Query,
    start: Seq<char>,
    max_keys: nat,
    names: Seq<Seq<char>>,
    rounds: Seq<Round>,
    post: Merge,
    page: Vec<ListEntry>,
) -> (next: FileStatus)
    requires
        is_namespace(ns),
        is_root(q.root),
        all_names(names),
        start == abs_path(names),
        is_run(ns, q, start, max_keys, rounds),
        state_after(q, start, rounds, rounds.len() as int).steps(
            max_keys,
            post,
            PageStep::Page(page, true),
        ),
    ensures
        reached(ns, q, start, next),
        forall|i: int|
            0 <= i < page@.len() ==> key_lt((#[trigger] page@[i]).key@, key_in(q, next)),
        forall|j: int| 1 <= j < rounds.len() ==> key_lt((#[trigger] rounds[j]).dir@, next.path@),
{
    let n = rounds.len() as int;
    let m = state_after(q, start, rounds, n);
    let taken = lemma_run(ns, q, start, max_keys, names, rounds, n);
    let entries = page@;
    let limit = m.limit_or(max_keys);
    let (t, more) = choose|t: Seq<FileStatus>, more: Seq<ListEntry>| #[trigger]
        m.fills_page(limit, t, more, post, entries);
    let next = t.last();
    let all = taken + t;
    lemma_probe(ns, q, start, max_keys, names, m, taken, t, more, post, entries);
    assert forall|j: int| 1 <= j < rounds.len() implies key_lt(
        (#[trigger] rounds[j]).dir@,
        next.path@,
    ) by {
        assert(took_dir(q, taken, rounds[j].dir@));
        let k = choose|k: int|
            0 <= k < taken.len() && (#[trigger] taken[k]).path@ == rounds[j].dir@ && q.opens(
                taken[k],
            );
        assert(all[k] == taken[k]);
        assert(key_lt(all[k].path@, all[all.len() - 1].path@));
    }
    next
}

/// The directory `start` is not above the directory `root`.
pub open spec fn is_not_above(start: Seq<char>, root: Seq<char>) -> bool {
    is_root(start) && at_or_below(root, start) ==> start == root
}

/// The directory of a prefix is not above the root.
pub proof fn lemma_prefix_not_above(ns: Namespace, q: Query, start: Seq<char>)
    requires
        is_namespace(ns),
        is_root(q.root),
        start_of(q.root, q.prefix) == Some(start),
    ensures
        is_not_above(start, q.root),
{
    let (root, top) = lemma_grounded(ns, q, start);
    lemma_below_names(root + top, root);
    if (root + top).is_prefix_of(root) {
        assert(root + top =~= root);
    }
}

/// A later marker opens no more directories.
proof fn lemma_opens_less(q: Query, last: Seq<char>, path: Seq<char>)
    requires
        q.after matches Some(after) ==> key_lt(after, last),
        (Query { after: Some(last), ..q }).opens_dir(path),
    ensures
        q.opens_dir(path),
{
    if let Some(after) = q.after {
        let key = key_of_path(q.root, path)->0;
        if children_all_before(key, after) {
            law_children_all_before(key, after);
            law_children_all_before(key, last);
            assert forall|name: Seq<char>| key_lt(#[trigger] (key.push('/') + name), last) by {
                lemma_key_lt_transitive(key.push('/') + name, after, last);
            }
        }
    }
}

/// A directory on the way to a file that sorts after the marker has to be opened for it.
proof fn lemma_opens_for(
    q: Query,
    last: Seq<char>,
    root: Seq<Seq<char>>,
    start: Seq<Seq<char>>,
    below: Seq<Seq<char>>,
    i: int,
)
    requires
        all_names(root),
        q.root == abs_path(root),
        all_names(start + below),
        is_not_above(abs_path(start), q.root),
        1 <= i < below.len(),
        key_of_path(q.root, abs_path(start + below)) matches Some(key) && key_lt(last, key),
        q.opens_dir(way_dir(start, below, i)),
    ensures
        (Query { after: Some(last), ..q }).opens_dir(way_dir(start, below, i)),
{
    let q2 = Query { after: Some(last), ..q };
    let all = start + below;
    let dir = start + below.take(i);
    assert forall|j: int| 0 <= j < dir.len() implies is_name(#[trigger] dir[j]) by {
        assert(all[j] == dir[j]);
    }
    assert forall|j: int| 0 <= j < start.len() implies is_name(#[trigger] start[j]) by {
        assert(all[j] == start[j]);
    }
    let x = lemma_key_names(root, all);
    let y = lemma_key_names(root, dir);
    if y.len() == 0 {
        assert(dir =~= root);
        lemma_below_names(start, root);
        assert(start =~= root.take(start.len() as int));
        assert(all_names(start));
        assert(abs_path(start) == abs_path(root));
        lemma_abs_path_injective(start, root);
    }
    assert(x.take(y.len() as int) =~= y) by {
        assert forall|j: int| 0 <= j < y.len() implies x[j] == y[j] by {
            assert((root + x)[j + root.len()] == all[j + root.len()]);
            assert((root + y)[j + root.len()] == dir[j + root.len()]);
        }
    }
    lemma_marker_not_past(q2, x, y.len() as int);
}

/// What a walk reaches beyond a later marker is what it reaches that sorts after it.
proof fn lemma_reached_after(
    ns: Namespace,
    q: Query,
    last: Seq<char>,
    start: Seq<char>,
    s: FileStatus,
)
    requires
        is_root(q.root),
        is_not_above(start, q.root),
        q.after matches Some(after) ==> key_lt(after, last),
    ensures
        reached(ns, (Query { after: Some(last), ..q }), start, s) <==> reached(ns, q, start, s)
            && key_lt(last, key_in(q, s)),
{
    let q2 = Query { after: Some(last), ..q };
    let root = choose|names: Seq<Seq<char>>| #[trigger]
        all_names(names) && q.root == abs_path(names);
    if reached(ns, q2, start, s) {
        let (top, below) = choose|top: Seq<Seq<char>>, below: Seq<Seq<char>>|
            all_names(top) && start == abs_path(top) && #[trigger] found(ns, top, below, s)
                && way_open(q2, top, below);
        if let Some(after) = q.after {
            lemma_key_lt_transitive(after, last, key_in(q, s));
        }
        assert(way_open(q, top, below)) by {
            assert forall|i: int| 1 <= i < below.len() implies q.opens_dir(
                #[trigger] way_dir(top, below, i),
            ) by {
                lemma_opens_less(q, last, way_dir(top, below, i));
            }
        }
        assert(found(ns, top, below, s));
    }
    if reached(ns, q, start, s) && key_lt(last, key_in(q, s)) {
        let (top, below) = choose|top: Seq<Seq<char>>, below: Seq<Seq<char>>|
            all_names(top) && start == abs_path(top) && #[trigger] found(ns, top, below, s)
                && way_open(q, top, below);
        lemma_found(ns, top, below, s);
        assert(way_open(q2, top, below)) by {
            assert forall|i: int| 1 <= i < below.len() implies q2.opens_dir(
                #[trigger] way_dir(top, below, i),
            ) by {
                lemma_opens_for(q, last, root, top, below, i);
            }
        }
        assert(found(ns, top, below, s));
    }
}

/// Pages tile the listing: a truncated page and the page that resumes after its last key
/// make up, in this order, a page of the whole. No key is served twice and none is lost. The
/// start directory may be any that is not above the root.
pub proof fn law_pages_tile(
    ns: Namespace,
    q: Query,
    start: Seq<char>,
    n1: nat,
    first: Seq<ListEntry>,
    n2: nat,
    second: Seq<ListEntry>,
    truncated: bool,
)
    requires
        is_root(q.root),
        is_not_above(start, q.root),
        is_page(ns, q, start, n1, first, true),
        first.len() > 0,
        is_page(
            ns,
            (Query { after: Some(first.last().key@), ..q }),
            start,
            n2,
            second,
            truncated,
        ),
    ensures
        is_page(ns, q, start, n1 + n2, first + second, truncated),
{
    let last = first.last().key@;
    let q2 = Query { after: Some(last), ..q };
    let f1 = choose|f: Seq<FileStatus>| #[trigger]
        is_page_of(ns, q, start, n1, f, first, true);
    let f2 = choose|f: Seq<FileStatus>| #[trigger]
        is_page_of(ns, q2, start, n2, f, second, truncated);
    let files = f1 + f2;
    let both = first + second;
    let n = first.len() as int;
    assert(describes(q.root, f1[n - 1], first[n - 1]));
    assert(reached(ns, q, start, f1[n - 1]));
    // Resuming asks for what belongs in the listing and sorts after the first page.
    assert forall|s: FileStatus| #[trigger] reached(ns, q2, start, s) <==> reached(
        ns,
        q,
        start,
        s,
    ) && key_lt(last, key_in(q, s)) by {
        lemma_reached_after(ns, q, last, start, s);
    }
    assert forall|i: int| 0 <= i < first.len() implies key_le((#[trigger] first[i]).key@, last) by {
        if i < n - 1 {
            assert(key_lt(first[i].key@, first[n - 1].key@));
        }
    }
    assert forall|i: int| 0 <= i < second.len() implies key_lt(last, (#[trigger] second[i]).key@) by {
        assert(describes(q.root, f2[i], second[i]));
        assert(reached(ns, q2, start, f2[i]));
    }
    assert forall|i: int| 0 <= i < files.len() implies describes(
        q.root,
        files[i],
        #[trigger] both[i],
    ) by {
        if i < n {
            assert(both[i] == first[i]);
        } else {
            assert(both[i] == second[i - n]);
        }
    }
    assert forall|i: int| 0 <= i < files.len() implies reached(ns, q, start, #[trigger] files[i]) by {
        if i < n {
            assert(files[i] == f1[i]);
        } else {
            assert(files[i] == f2[i - n]);
            assert(reached(ns, q2, start, f2[i - n]));
        }
    }
    assert forall|i: int, j: int| 0 <= i < j < both.len() implies key_lt(
        (#[trigger] both[i]).key@,
        (#[trigger] both[j]).key@,
    ) by {
        if j < n {
            assert(both[i] == first[i] && both[j] == first[j]);
        } else if i < n {
            assert(both[i] == first[i] && both[j] == second[j - n]);
            if first[i].key@ != last {
                lemma_key_lt_transitive(first[i].key@, last, second[j - n].key@);
            }
        } else {
            assert(both[i] == second[i - n] && both[j] == second[j - n]);
        }
    }
    assert forall|s: FileStatus| files.contains(s) <==> #[trigger] f1.contains(s) || f2.contains(
        s,
    ) by {
        if f1.contains(s) {
            let i = choose|i: int| 0 <= i < f1.len() && f1[i] == s;
            assert(files[i] == s);
        }
        if f2.contains(s) {
            let i = choose|i: int| 0 <= i < f2.len() && f2[i] == s;
            assert(files[i + n] == s);
        }
        if files.contains(s) {
            let i = choose|i: int| 0 <= i < files.len() && files[i] == s;
            if i < n {
                assert(f1[i] == s);
            } else {
                assert(f2[i - n] == s);
            }
        }
    }
    assert forall|s: FileStatus| #[trigger]
        reached(ns, q, start, s) && !files.contains(s) implies truncated && forall|i: int|
        0 <= i < both.len() ==> key_lt((#[trigger] both[i]).key@, key_in(q, s)) by {
        assert(!f1.contains(s));
        assert(key_lt(first[n - 1].key@, key_in(q, s)));
        assert(reached(ns, q2, start, s));
        assert forall|i: int| 0 <= i < both.len() implies key_lt(
            (#[trigger] both[i]).key@,
            key_in(q, s),
        ) by {
            if i < n {
                assert(both[i] == first[i]);
            } else {
                assert(both[i] == second[i - n]);
            }
        }
    }
    if truncated {
        let s = choose|s: FileStatus| #[trigger] reached(ns, q2, start, s) && !f2.contains(s);
        assert(reached(ns, q, start, s));
        if f1.contains(s) {
            let i = choose|i: int| 0 <= i < f1.len() && f1[i] == s;
            assert(describes(q.root, f1[i], first[i]));
            assert(key_le(first[i].key@, last));
            lemma_key_lt_asymmetric(last, key_in(q, s));
        }
        assert(reached(ns, q, start, s) && !files.contains(s));
    }
    assert(is_page_of(ns, q, start, n1 + n2, files, both, truncated));
}

/// A key names one file of the listing.
proof fn lemma_key_names_file(
    ns: Namespace,
    q: Query,
    start: Seq<char>,
    a: FileStatus,
    b: FileStatus,
)
    requires
        is_namespace(ns),
        is_root(q.root),
        reached(ns, q, start, a),
        reached(ns, q, start, b),
        key_in(q, a) == key_in(q, b),
    ensures
        a == b,
{
    if !is_root(start) {
        lemma_lone_start(ns, q, start, a);
    }
    let names = choose|names: Seq<Seq<char>>| #[trigger]
        all_names(names) && start == abs_path(names);
    let x = lemma_reached_way(ns, q, start, names, a);
    let y = lemma_reached_way(ns, q, start, names, b);
    lemma_found(ns, names, x, a);
    lemma_found(ns, names, y, b);
    lemma_wanted_order(q, a, names + x, b, names + y);
    lemma_wanted_order(q, b, names + y, a, names + x);
    lemma_key_lt_irreflexive(key_in(q, a));
    lemma_key_lt_total(a.path@, b.path@);
    lemma_same_way(names, x, y);
    let dir = abs_path(names + x.drop_last());
    let i = choose|i: int| 0 <= i < ns[dir].len() && ns[dir][i] == a;
    let j = choose|j: int| 0 <= j < ns[dir].len() && ns[dir][j] == b;
    if i < j {
        assert(ns[dir][i].path@ != ns[dir][j].path@);
    } else if j < i {
        assert(ns[dir][j].path@ != ns[dir][i].path@);
    }
}

/// No file of the listing fits between the first `i` entries that two pages share and the
/// next entry of either.
proof fn lemma_next_not_before(
    ns: Namespace,
    q: Query,
    start: Seq<char>,
    n1: nat,
    n2: nat,
    f1: Seq<FileStatus>,
    e1: Seq<ListEntry>,
    t1: bool,
    f2: Seq<FileStatus>,
    e2: Seq<ListEntry>,
    t2: bool,
    i: int,
)
    requires
        is_page_of(ns, q, start, n1, f1, e1, t1),
        is_page_of(ns, q, start, n2, f2, e2, t2),
        0 <= i < e1.len(),
        i < e2.len(),
        forall|k: int| 0 <= k < i ==> (#[trigger] e1[k]).key@ == e2[k].key@,
    ensures
        !key_lt(e1[i].key@, e2[i].key@),
{
    if key_lt(e1[i].key@, e2[i].key@) {
        let s = f1[i];
        assert(describes(q.root, f1[i], e1[i]));
        assert(reached(ns, q, start, s));
        if f2.contains(s) {
            let j = choose|j: int| 0 <= j < f2.len() && f2[j] == s;
            assert(describes(q.root, f2[j], e2[j]));
            if j < i {
                assert(e1[j].key@ == e2[j].key@);
                assert(key_lt(e1[j].key@, e1[i].key@));
                lemma_key_lt_irreflexive(e1[i].key@);
            } else {
                if i < j {
                    assert(key_lt(e2[i].key@, e2[j].key@));
                    lemma_key_lt_asymmetric(e2[i].key@, e2[j].key@);
                } else {
                    lemma_key_lt_irreflexive(e1[i].key@);
                }
            }
        } else {
            assert(key_lt(e2[i].key@, key_in(q, s)));
            lemma_key_lt_asymmetric(e2[i].key@, e1[i].key@);
        }
    }
}

/// Two pages of one listing share their first `i` keys, as far as both reach.
proof fn lemma_pages_agree(
    ns: Namespace,
    q: Query,
    start: Seq<char>,
    n1: nat,
    n2: nat,
    f1: Seq<FileStatus>,
    e1: Seq<ListEntry>,
    t1: bool,
    f2: Seq<FileStatus>,
    e2: Seq<ListEntry>,
    t2: bool,
    i: int,
)
    requires
        is_page_of(ns, q, start, n1, f1, e1, t1),
        is_page_of(ns, q, start, n2, f2, e2, t2),
        0 <= i <= e1.len(),
        i <= e2.len(),
    ensures
        forall|k: int| 0 <= k < i ==> (#[trigger] e1[k]).key@ == e2[k].key@,
    decreases i,
{
    if i > 0 {
        lemma_pages_agree(ns, q, start, n1, n2, f1, e1, t1, f2, e2, t2, i - 1);
        lemma_next_not_before(ns, q, start, n1, n2, f1, e1, t1, f2, e2, t2, i - 1);
        assert forall|k: int| 0 <= k < i - 1 implies (#[trigger] e2[k]).key@ == e1[k].key@ by {
            assert(e1[k].key@ == e2[k].key@);
        }
        lemma_next_not_before(ns, q, start, n2, n1, f2, e2, t2, f1, e1, t1, i - 1);
        lemma_key_lt_total(e1[i - 1].key@, e2[i - 1].key@);
    }
}

/// One page cannot go on where another page of the same listing has ended for want of keys, or
/// by a limit that is no smaller.
proof fn lemma_pages_end_alike(
    ns: Namespace,
    q: Query,
    start: Seq<char>,
    n1: nat,
    n2: nat,
    f1: Seq<FileStatus>,
    e1: Seq<ListEntry>,
    t1: bool,
    f2: Seq<FileStatus>,
    e2: Seq<ListEntry>,
    t2: bool,
)
    requires
        is_page_of(ns, q, start, n1, f1, e1, t1),
        is_page_of(ns, q, start, n2, f2, e2, t2),
        !t1 || n2 <= n1,
    ensures
        e2.len() <= e1.len(),
{
    if e1.len() < e2.len() {
        let m = e1.len() as int;
        lemma_pages_agree(ns, q, start, n1, n2, f1, e1, t1, f2, e2, t2, m);
        let s = f2[m];
        assert(describes(q.root, f2[m], e2[m]));
        assert(reached(ns, q, start, s));
        assert(!f1.contains(s)) by {
            if f1.contains(s) {
                let j = choose|j: int| 0 <= j < f1.len() && f1[j] == s;
                assert(describes(q.root, f1[j], e1[j]));
                assert(e1[j].key@ == e2[j].key@);
                assert(key_lt(e2[j].key@, e2[m].key@));
                lemma_key_lt_irreflexive(e2[m].key@);
            }
        }
    }
}

/// Two entries show the same.
pub open spec fn same_entry(a: ListEntry, b: ListEntry) -> bool {
    &&& a.key@ == b.key@
    &&& a.size == b.size
    &&& a.modification_time == b.modification_time
}

/// Two pages of one listing show the same file where they show the same key.
proof fn lemma_same_file(
    ns: Namespace,
    q: Query,
    start: Seq<char>,
    n1: nat,
    n2: nat,
    f1: Seq<FileStatus>,
    e1: Seq<ListEntry>,
    t1: bool,
    f2: Seq<FileStatus>,
    e2: Seq<ListEntry>,
    t2: bool,
    i: int,
)
    requires
        is_namespace(ns),
        is_root(q.root),
        is_page_of(ns, q, start, n1, f1, e1, t1),
        is_page_of(ns, q, start, n2, f2, e2, t2),
        0 <= i < e1.len(),
        i < e2.len(),
        e1[i].key@ == e2[i].key@,
    ensures
        f1[i] == f2[i],
        same_entry(e1[i], e2[i]),
{
    assert(describes(q.root, f1[i], e1[i]));
    assert(describes(q.root, f2[i], e2[i]));
    lemma_key_names_file(ns, q, start, f1[i], f2[i]);
}

/// The answer to a request is determined: two pages of one listing with one limit hold the
/// same entries and are truncated alike.
pub proof fn law_flat_page_determined(
    ns: Namespace,
    q: Query,
    start: Seq<char>,
    n: nat,
    e1: Seq<ListEntry>,
    t1: bool,
    e2: Seq<ListEntry>,
    t2: bool,
)
    requires
        is_namespace(ns),
        is_root(q.root),
        is_page(ns, q, start, n, e1, t1),
        is_page(ns, q, start, n, e2, t2),
    ensures
        t1 == t2,
        e1.len() == e2.len(),
        forall|i: int| 0 <= i < e1.len() ==> same_entry(#[trigger] e1[i], e2[i]),
{
    let f1 = choose|f: Seq<FileStatus>| #[trigger] is_page_of(ns, q, start, n, f, e1, t1);
    let f2 = choose|f: Seq<FileStatus>| #[trigger] is_page_of(ns, q, start, n, f, e2, t2);
    lemma_pages_end_alike(ns, q, start, n, n, f1, e1, t1, f2, e2, t2);
    lemma_pages_end_alike(ns, q, start, n, n, f2, e2, t2, f1, e1, t1);
    lemma_pages_agree(ns, q, start, n, n, f1, e1, t1, f2, e2, t2, e1.len() as int);
    assert forall|i: int| 0 <= i < e1.len() implies same_entry(#[trigger] e1[i], e2[i]) by {
        lemma_same_file(ns, q, start, n, n, f1, e1, t1, f2, e2, t2, i);
    }
    if t1 != t2 {
        assert forall|i: int| 0 <= i < e1.len() implies f1[i] == #[trigger] f2[i] by {
            lemma_same_file(ns, q, start, n, n, f1, e1, t1, f2, e2, t2, i);
        }
        assert(f1 =~= f2);
    }
}

/// A page of whatever limit is the beginning of the whole listing, and it is truncated just
/// when it is not all of it.
pub proof fn law_page_begins_whole(
    ns: Namespace,
    q: Query,
    start: Seq<char>,
    n: nat,
    entries: Seq<ListEntry>,
    truncated: bool,
    max: nat,
    whole: Seq<ListEntry>,
)
    requires
        is_namespace(ns),
        is_root(q.root),
        is_page(ns, q, start, n, entries, truncated),
        is_page(ns, q, start, max, whole, false),
    ensures
        entries.len() <= whole.len(),
        truncated <==> entries.len() < whole.len(),
        forall|i: int| 0 <= i < entries.len() ==> same_entry(#[trigger] entries[i], whole[i]),
{
    let f1 = choose|f: Seq<FileStatus>| #[trigger]
        is_page_of(ns, q, start, n, f, entries, truncated);
    let f2 = choose|f: Seq<FileStatus>| #[trigger] is_page_of(ns, q, start, max, f, whole, false);
    lemma_pages_end_alike(ns, q, start, max, n, f2, whole, false, f1, entries, truncated);
    if !truncated {
        lemma_pages_end_alike(ns, q, start, n, max, f1, entries, truncated, f2, whole, false);
    }
    lemma_pages_agree(
        ns,
        q,
        start,
        n,
        max,
        f1,
        entries,
        truncated,
        f2,
        whole,
        false,
        entries.len() as int,
    );
    assert forall|i: int| 0 <= i < entries.len() implies same_entry(#[trigger] entries[i], whole[i])
        && f1[i] == f2[i] by {
        lemma_same_file(
            ns,
            q,
            start,
            n,
            max,
            f1,
            entries,
            truncated,
            f2,
            whole,
            false,
            i,
        );
    }
    if truncated && entries.len() == whole.len() {
        let s = choose|s: FileStatus| #[trigger] reached(ns, q, start, s) && !f1.contains(s);
        assert(f2.contains(s));
        let i = choose|i: int| 0 <= i < f2.len() && f2[i] == s;
        assert(same_entry(entries[i], whole[i]) && f1[i] == f2[i]);
    }
}

/// Where the first slash from a position on is found.
proof fn lemma_find_slash(s: Seq<char>, from: int, i: int)
    requires
        0 <= from <= i <= s.len(),
        forall|j: int| from <= j < i ==> s[j] != '/',
        i < s.len() ==> s[i] == '/',
    ensures
        find_from(s, seq!['/'], from) == if i < s.len() {
            Some(i)
        } else {
            None
        },
    decreases i - from,
{
    let slash = seq!['/'];
    if from < s.len() {
        let here = s.subrange(from, from + 1);
        assert(here[0] == s[from]);
        if from == i {
            assert(here =~= slash);
        } else {
            assert(here[0] != slash[0]);
            lemma_find_slash(s, from + 1, i);
        }
    }
}

/// What a name without a slash after the prefix, and keys below it, are shown under.
proof fn lemma_first_slash(part: Seq<char>, prefix: Seq<char>, rest: Seq<char>)
    requires
        prefix.len() <= part.len(),
        forall|j: int| prefix.len() <= j < part.len() ==> part[j] != '/',
    ensures
        collapsed(part, prefix, Some(seq!['/'])) is None,
        collapsed(part.push('/') + rest, prefix, Some(seq!['/'])) == Some(part.push('/')),
        dir_group(part, prefix, Some(seq!['/'])) == part.push('/'),
{
    let n = part.len() as int;
    let lead = part.push('/');
    lemma_find_slash(part, prefix.len() as int, n);
    lemma_find_slash(lead, prefix.len() as int, n);
    lemma_find_slash(lead + rest, prefix.len() as int, n);
    assert(lead.take(n + 1) =~= lead);
    assert((lead + rest).take(n + 1) =~= lead);
}

/// One directory suffices for a listing with the delimiter `/`: a file below the start
/// directory whose key begins with the prefix is either a direct child of it, and then a
/// Content, or it collapses into the CommonPrefix of a direct child of it.
pub proof fn law_one_level_suffices(
    ns: Namespace,
    q: Query,
    start: Seq<char>,
    names: Seq<Seq<char>>,
    below: Seq<Seq<char>>,
    s: FileStatus,
    key: Seq<char>,
)
    requires
        is_namespace(ns),
        is_root(q.root),
        start_of(q.root, q.prefix) == Some(start),
        all_names(names),
        start == abs_path(names),
        found(ns, names, below, s),
        key_of_path(q.root, s.path@) == Some(key),
        q.prefix.is_prefix_of(key),
    ensures
        below.len() == 1 ==> ns[start].contains(s) && collapsed(key, q.prefix, Some(seq!['/']))
            is None,
        below.len() > 1 ==> exists|d: FileStatus|
            {
                &&& #[trigger] ns[start].contains(d)
                &&& d.isdir
                &&& key_of_path(q.root, d.path@) is Some
                &&& q.prefix.is_prefix_of(key_in(q, d))
                &&& collapsed(key, q.prefix, Some(seq!['/'])) == Some(
                    dir_group(key_in(q, d), q.prefix, Some(seq!['/'])),
                )
            },
{
    let (root, top) = lemma_grounded(ns, q, start);
    lemma_abs_path_injective(names, root + top);
    lemma_found(ns, names, below, s);
    let n = top.len() as int;
    let all = top + below;
    let one = below.take(1);
    let head = top + one;
    let prefix = q.prefix;
    assert(names + below =~= root + all);
    assert forall|j: int| 0 <= j < all.len() implies is_name(#[trigger] all[j]) by {
        assert((root + all)[j + root.len()] == all[j]);
    }
    assert forall|j: int| 0 <= j < (root + head).len() implies is_name(
        #[trigger] (root + head)[j],
    ) by {
        assert((root + head)[j] == (root + all)[j]);
    }
    lemma_key_order(root, all, head);
    assert(key == join(all, '/'));
    assert(all.take(n) =~= top);
    assert(all.take(n + 1) =~= head);
    lemma_start_dir(root, prefix, all, n);
    lemma_prefix_decided(root, prefix, all, n, n + 1);
    let part = join(head, '/');
    let name = below[0];
    assert(one =~= seq![name]);
    assert(all[n] == name);
    assert(join(one, '/') == name);
    // From the end of the prefix on, the first name below the start has no slash.
    assert(part == if n == 0 {
        name
    } else {
        join(top, '/').push('/') + name
    }) by {
        if n == 0 {
            assert(head =~= one);
        } else {
            lemma_join_concat(top, one, '/');
        }
    }
    assert forall|j: int| prefix.len() <= j < part.len() implies part[j] != '/' by {
        let k = if n == 0 {
            j
        } else {
            j - (join(top, '/').len() as int + 1)
        };
        assert(part[j] == name[k]);
        if name[k] == '/' {
            assert(name.contains(name[k]));
        }
    }
    lemma_first_slash(part, prefix, join(below.skip(1), '/'));
    if below.len() == 1 {
        assert(below =~= one);
        assert(below.drop_last() =~= Seq::<Seq<char>>::empty());
        assert(names + below.drop_last() =~= names);
    } else {
        assert(leads_on(ns, names, below, 0));
        let d = choose|d: FileStatus| d.isdir && #[trigger] listed_at(ns, names, below, 0, d);
        assert(names + below.take(0) =~= names);
        assert(names + one =~= root + head);
        assert(head + below.skip(1) =~= all);
        lemma_join_concat(head, below.skip(1), '/');
        assert(key == part.push('/') + join(below.skip(1), '/'));
        assert(ns[start].contains(d));
    }
}

/// Collecting a page asks for a directory besides the start only if its key begins with the prefix
/// and something in it could sort after the marker, or at it.
pub proof fn law_listed_directories_are_needed(
    ns: Namespace,
    q: Query,
    start: Seq<char>,
    max_keys: nat,
    rounds: Seq<Round>,
    j: int,
)
    requires
        is_namespace(ns),
        is_root(q.root),
        is_run(ns, q, start, max_keys, rounds),
        0 < j < rounds.len(),
    ensures
        rounds[0].dir@ == start,
        key_of_path(q.root, rounds[j].dir@) matches Some(key) && q.prefix.is_prefix_of(key) && (
        q.after matches Some(marker) ==> exists|name: Seq<char>|
            !key_lt(#[trigger] (key.push('/') + name), marker)),
{
    law_only_relevant_dirs_opened(ns, q, start, max_keys, rounds);
    assert(q.opens_dir(rounds[j].dir@));
    let key = key_of_path(q.root, rounds[j].dir@)->0;
    if let Some(marker) = q.after {
        law_children_all_before(key, marker);
    }
}

} // verus!
