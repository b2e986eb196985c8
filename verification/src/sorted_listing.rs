//! Lazy, sorted merge over per-directory HDFS listings: the engine of flat listings.
//!
//! The merge holds one sorted run per opened directory and always takes the smallest path of
//! them all. A directory is opened only when its own path is taken, so only directories that
//! sort before the end of the page are ever listed, and never one that cannot contribute.
//! The merge itself does no I/O: [`SortedListing::collect_page`] says which directory it
//! needs next, and [`SortedListing::supply`] takes the answer.

use crate::error::{denies_directory, is_dir_denied, HdfsError, HdfsErrorKind};
use crate::listing::ListEntry;
use crate::path::{key_of_path, PathMapper};
use crate::sort::{lemma_stable_sort_permutes, reversed, sort_by_key, sorted, Keyed};
use crate::text::{
    key_le, key_less, key_lt, lemma_key_le_transitive, lemma_key_lt_decided,
    lemma_key_lt_irreflexive, lemma_key_lt_total, starts_with,
};
use vstd::multiset::Multiset;
use vstd::prelude::*;

verus! {

/// What HDFS reports of one file or directory.
#[derive(Debug, Clone, PartialEq, Eq)]
pub struct FileStatus {
    pub path: String,
    pub length: usize,
    pub isdir: bool,
    pub modification_time: u64,
}

impl Keyed for FileStatus {
    open spec fn sort_key(&self) -> Seq<char> {
        self.path@
    }

    fn key_text(&self) -> (k: &str) {
        self.path.as_str()
    }
}

// ---------------------------------------------------------------------------------------
// What a listing asks for
// ---------------------------------------------------------------------------------------

/// A flat listing: the keys below `root` that begin with `prefix` and sort after `after`.
#[verifier::ext_equal]
pub struct Query {
    pub root: Seq<char>,
    pub prefix: Seq<char>,
    pub after: Option<Seq<char>>,
}

/// Every key below the directory of key `dir_key` sorts before `after`.
pub open spec fn children_all_before(dir_key: Seq<char>, after: Seq<char>) -> bool {
    &&& key_lt(dir_key.push('/'), after)
    &&& !dir_key.push('/').is_prefix_of(after)
}

/// True when every possible child key of `dir_key` (keys of the form `dir_key + "/" + name`)
/// sorts strictly before `after`, so the directory may be skipped without listing it.
///
/// The marker may extend the directory's key: with marker `ab` and directory `a` every child
/// `a/...` sorts before `ab`, because `/` sorts before `b`.
pub fn dir_children_all_before(dir_key: &str, after: &str) -> (r: bool)
    ensures
        r == children_all_before(dir_key@, after@),
{
    let mut lead = dir_key.to_string();
    lead.append("/");
    proof {
        reveal_strlit("/");
        assert(lead@ =~= dir_key@.push('/'));
    }
    key_less(lead.as_str(), after) && !starts_with(after, lead.as_str())
}

/// The skip rule is exact: it holds of a directory just when each string that extends
/// `dir_key + "/"` sorts before the marker.
pub proof fn law_children_all_before(dir_key: Seq<char>, after: Seq<char>)
    ensures
        children_all_before(dir_key, after) <==> forall|name: Seq<char>|
            key_lt(#[trigger] (dir_key.push('/') + name), after),
{
    let lead = dir_key.push('/');
    if children_all_before(dir_key, after) {
        assert forall|name: Seq<char>| key_lt(#[trigger] (lead + name), after) by {
            lemma_key_lt_decided(lead, name, after);
        }
    } else {
        let name = if lead.is_prefix_of(after) {
            after.skip(lead.len() as int)
        } else {
            Seq::<char>::empty()
        };
        if lead.is_prefix_of(after) {
            assert(lead + name =~= after);
            lemma_key_lt_irreflexive(after);
        } else {
            assert(lead + name =~= lead);
        }
        assert(!key_lt(lead + name, after));
    }
}

impl Query {
    /// A file at `path` belongs in the listing.
    pub open spec fn wants_file(self, path: Seq<char>) -> bool {
        key_of_path(self.root, path) matches Some(key) && self.prefix.is_prefix_of(key) && (
        self.after matches Some(after) ==> key_lt(after, key))
    }

    /// A directory at `path` may hold files that belong in the listing.
    pub open spec fn opens_dir(self, path: Seq<char>) -> bool {
        key_of_path(self.root, path) matches Some(key) && self.prefix.is_prefix_of(key) && (
        self.after matches Some(after) ==> !children_all_before(key, after))
    }

    /// A directory that the merge has to open.
    pub open spec fn opens(self, s: FileStatus) -> bool {
        s.isdir && self.opens_dir(s.path@)
    }

    /// A file that the merge emits.
    pub open spec fn wants(self, s: FileStatus) -> bool {
        !s.isdir && self.wants_file(s.path@)
    }

    /// The files of `taken` that belong in the listing, in their order.
    pub open spec fn wanted(self, taken: Seq<FileStatus>) -> Seq<FileStatus> {
        taken.filter(|s: FileStatus| self.wants(s))
    }
}

/// `e` is the listing entry of the file `s`.
pub open spec fn describes(root: Seq<char>, s: FileStatus, e: ListEntry) -> bool {
    &&& key_of_path(root, s.path@) == Some(e.key@)
    &&& e.size == s.length
    &&& e.modification_time == s.modification_time
}

/// `entries` are the listing entries of `files`, one by one.
pub open spec fn lists(root: Seq<char>, files: Seq<FileStatus>, entries: Seq<ListEntry>) -> bool {
    &&& entries.len() == files.len()
    &&& forall|i: int| 0 <= i < files.len() ==> describes(root, files[i], #[trigger] entries[i])
}

// ---------------------------------------------------------------------------------------
// The merge as a state machine
// ---------------------------------------------------------------------------------------

/// The directory whose listing the merge waits for.
#[verifier::ext_equal]
pub enum Awaited {
    Nothing,
    Start,
    Dir(Seq<char>),
}

/// The state of a merge.
#[verifier::ext_equal]
pub struct Merge {
    pub query: Query,
    /// The directory that the walk is bounded to.
    pub start: Seq<char>,
    /// The entries of opened directories that were not taken yet.
    pub frontier: Multiset<FileStatus>,
    pub awaited: Awaited,
    /// Whether the start directory was asked for.
    pub seeded: bool,
    /// Whether the last key was passed.
    pub exhausted: bool,
    /// The entries of the page in progress.
    pub page: Seq<ListEntry>,
    /// The most entries that the page in progress may hold; `None` between pages.
    pub limit: Option<nat>,
}

/// What [`SortedListing::next_entry`] comes to.
#[derive(Debug, PartialEq, Eq)]
pub enum PullStep {
    /// The listing of this directory is needed first; hand it to [`SortedListing::supply`].
    List(String),
    /// The next entry in byte order.
    Entry(ListEntry),
    /// There are no more entries.
    Done,
}

/// What [`SortedListing::collect_page`] comes to.
#[derive(Debug, PartialEq, Eq)]
pub enum PageStep {
    /// The listing of this directory is needed first; hand it to [`SortedListing::supply`].
    List(String),
    /// The page, and whether at least one more key exists after it.
    Page(Vec<ListEntry>, bool),
}

/// `taken` are the smallest entries of `before` in path order, and `after` is the rest.
pub open spec fn takes(
    before: Multiset<FileStatus>,
    taken: Seq<FileStatus>,
    after: Multiset<FileStatus>,
) -> bool {
    &&& before == taken.to_multiset().add(after)
    &&& sorted(taken)
    &&& forall|x: FileStatus, y: FileStatus|
        taken.contains(x) && #[trigger] after.contains(y) ==> key_le(
            #[trigger] x.sort_key(),
            y.sort_key(),
        )
}

/// No entry of `taken` is a directory that has to be opened.
pub open spec fn opens_none(q: Query, taken: Seq<FileStatus>) -> bool {
    forall|i: int| 0 <= i < taken.len() ==> !q.opens(#[trigger] taken[i])
}

/// Every entry of `taken` is passed over: nothing to open, nothing to emit.
pub open spec fn passes(q: Query, taken: Seq<FileStatus>) -> bool {
    forall|i: int| 0 <= i < taken.len() ==> !q.opens(#[trigger] taken[i]) && !q.wants(taken[i])
}

impl Merge {
    /// A merge that has not begun.
    pub open spec fn fresh(query: Query, start: Seq<char>) -> Merge {
        Merge {
            query,
            start,
            frontier: Multiset::empty(),
            awaited: Awaited::Nothing,
            seeded: false,
            exhausted: false,
            page: Seq::empty(),
            limit: None,
        }
    }

    /// What holds of every merge.
    pub open spec fn wf(self) -> bool {
        &&& match self.limit {
            Some(n) => self.page.len() <= n,
            None => self.page.len() == 0,
        }
        &&& !self.seeded ==> self.awaited is Nothing && !self.exhausted && self.limit is None
        &&& !(self.awaited is Nothing) ==> !self.exhausted
        &&& !self.seeded || self.awaited is Start || self.exhausted ==> self.frontier
            == Multiset::<FileStatus>::empty()
    }

    /// The limit of the page in progress, or of a page that begins now.
    pub open spec fn limit_or(self, max_keys: nat) -> nat {
        match self.limit {
            Some(n) => n,
            None => max_keys,
        }
    }

    /// Between two pages.
    pub open spec fn between_pages(self) -> Merge {
        Merge { page: Seq::empty(), limit: None, ..self }
    }

    /// The next entry taken that is not passed over is a directory that must be opened.
    pub open spec fn pulls_dir(self, taken: Seq<FileStatus>, post: Merge, dir: Seq<char>) -> bool {
        &&& takes(self.frontier, taken, post.frontier)
        &&& taken.len() > 0
        &&& passes(self.query, taken.drop_last())
        &&& self.query.opens(taken.last())
        &&& dir == taken.last().path@
        &&& post == (Merge { frontier: post.frontier, awaited: Awaited::Dir(dir), ..self })
    }

    /// The next entry taken that is not passed over is a wanted file, and `e` describes it.
    pub open spec fn pulls_entry(self, taken: Seq<FileStatus>, post: Merge, e: ListEntry) -> bool {
        &&& takes(self.frontier, taken, post.frontier)
        &&& taken.len() > 0
        &&& passes(self.query, taken.drop_last())
        &&& self.query.wants(taken.last())
        &&& describes(self.query.root, taken.last(), e)
        &&& post == (Merge { frontier: post.frontier, ..self })
    }

    /// All that is left is passed over.
    pub open spec fn pulls_nothing(self, taken: Seq<FileStatus>, post: Merge) -> bool {
        &&& takes(self.frontier, taken, Multiset::empty())
        &&& passes(self.query, taken)
        &&& post == (Merge { frontier: Multiset::empty(), exhausted: true, ..self })
    }

    /// How asking for the next entry leaves the merge, and what it comes to.
    pub open spec fn pulls(self, post: Merge, out: PullStep) -> bool {
        match self.awaited {
            Awaited::Start => post == self && (out matches PullStep::List(d) && d@ == self.start),
            Awaited::Dir(dir) => post == self && (out matches PullStep::List(d) && d@ == dir),
            Awaited::Nothing => if self.exhausted {
                out is Done && post == self
            } else if !self.seeded {
                &&& out matches PullStep::List(d) && d@ == self.start
                &&& post == (Merge { seeded: true, awaited: Awaited::Start, ..self })
            } else {
                match out {
                    PullStep::List(d) => self.finds_dir(post, d@),
                    PullStep::Entry(e) => self.finds_entry(post, e),
                    PullStep::Done => self.finds_nothing(post),
                }
            },
        }
    }

    /// The next directory to open is `dir`.
    pub open spec fn finds_dir(self, post: Merge, dir: Seq<char>) -> bool {
        exists|taken: Seq<FileStatus>| #[trigger] self.pulls_dir(taken, post, dir)
    }

    /// The next entry is `e`.
    pub open spec fn finds_entry(self, post: Merge, e: ListEntry) -> bool {
        exists|taken: Seq<FileStatus>| #[trigger] self.pulls_entry(taken, post, e)
    }

    /// There is no next entry.
    pub open spec fn finds_nothing(self, post: Merge) -> bool {
        exists|taken: Seq<FileStatus>| #[trigger] self.pulls_nothing(taken, post)
    }

    /// Taking `taken` from the frontier reaches a directory that must be opened.
    pub open spec fn reaches_dir(
        self,
        limit: nat,
        taken: Seq<FileStatus>,
        more: Seq<ListEntry>,
        post: Merge,
        dir: Seq<char>,
    ) -> bool {
        &&& takes(self.frontier, taken, post.frontier)
        &&& taken.len() > 0
        &&& opens_none(self.query, taken.drop_last())
        &&& self.query.opens(taken.last())
        &&& dir == taken.last().path@
        &&& lists(self.query.root, self.query.wanted(taken), more)
        &&& self.page.len() + more.len() <= limit
        &&& post == (Merge {
            frontier: post.frontier,
            awaited: Awaited::Dir(dir),
            page: self.page + more,
            limit: Some(limit),
            ..self
        })
    }

    /// Taking `taken` from the frontier reaches one wanted file more than the page may hold.
    pub open spec fn fills_page(
        self,
        limit: nat,
        taken: Seq<FileStatus>,
        more: Seq<ListEntry>,
        post: Merge,
        entries: Seq<ListEntry>,
    ) -> bool {
        &&& takes(self.frontier, taken, post.frontier)
        &&& taken.len() > 0
        &&& opens_none(self.query, taken)
        &&& self.query.wants(taken.last())
        &&& lists(self.query.root, self.query.wanted(taken.drop_last()), more)
        &&& self.page.len() + more.len() == limit
        &&& entries == self.page + more
        &&& post == (Merge { frontier: post.frontier, ..self }).between_pages()
    }

    /// Taking `taken` empties the frontier before the page is full.
    pub open spec fn runs_out(
        self,
        limit: nat,
        taken: Seq<FileStatus>,
        more: Seq<ListEntry>,
        post: Merge,
        entries: Seq<ListEntry>,
    ) -> bool {
        &&& takes(self.frontier, taken, Multiset::empty())
        &&& opens_none(self.query, taken)
        &&& lists(self.query.root, self.query.wanted(taken), more)
        &&& self.page.len() + more.len() <= limit
        &&& entries == self.page + more
        &&& post == (Merge {
            frontier: Multiset::empty(),
            exhausted: true,
            ..self
        }).between_pages()
    }

    /// The next directory to open is `dir`.
    pub open spec fn needs_dir(self, limit: nat, post: Merge, dir: Seq<char>) -> bool {
        exists|taken: Seq<FileStatus>, more: Seq<ListEntry>| #[trigger]
            self.reaches_dir(limit, taken, more, post, dir)
    }

    /// The page is done: `entries`, and whether more keys follow.
    pub open spec fn ends_page(
        self,
        limit: nat,
        post: Merge,
        entries: Seq<ListEntry>,
        truncated: bool,
    ) -> bool {
        if truncated {
            exists|taken: Seq<FileStatus>, more: Seq<ListEntry>| #[trigger]
                self.fills_page(limit, taken, more, post, entries)
        } else {
            exists|taken: Seq<FileStatus>, more: Seq<ListEntry>| #[trigger]
                self.runs_out(limit, taken, more, post, entries)
        }
    }

    /// How a step towards a page of at most `max_keys` entries leaves the merge, and what
    /// it comes to. A page in progress keeps the limit it was begun with.
    pub open spec fn steps(self, max_keys: nat, post: Merge, out: PageStep) -> bool {
        let limit = self.limit_or(max_keys);
        match self.awaited {
            Awaited::Start => post == self && (out matches PageStep::List(d) && d@ == self.start),
            Awaited::Dir(dir) => post == self && (out matches PageStep::List(d) && d@ == dir),
            Awaited::Nothing => if self.exhausted {
                &&& out matches PageStep::Page(entries, more) && entries@ == self.page && !more
                &&& post == self.between_pages()
            } else if !self.seeded {
                &&& out matches PageStep::List(d) && d@ == self.start
                &&& post == (Merge {
                    seeded: true,
                    awaited: Awaited::Start,
                    limit: Some(limit),
                    ..self
                })
            } else {
                match out {
                    PageStep::List(d) => self.needs_dir(limit, post, d@),
                    PageStep::Page(entries, truncated) => self.ends_page(
                        limit,
                        post,
                        entries@,
                        truncated,
                    ),
                }
            },
        }
    }

    /// What an answer to the awaited listing does.
    ///
    /// A missing start directory is an empty listing. A subdirectory that vanished or may
    /// not be read is left out. Any other failure is handed back and ends the page.
    pub open spec fn answered(
        self,
        answer: Result<Seq<FileStatus>, HdfsError>,
        post: Merge,
        r: Result<(), HdfsError>,
    ) -> bool {
        let idle = Merge { awaited: Awaited::Nothing, ..self };
        match (self.awaited, answer) {
            (Awaited::Nothing, _) => post == self && r is Ok,
            (_, Ok(statuses)) => {
                &&& r is Ok
                &&& post == (Merge {
                    frontier: self.frontier.add(statuses.to_multiset()),
                    ..idle
                })
            },
            (Awaited::Start, Err(e)) => if e.kind is FileNotFound {
                r is Ok && post == (Merge { exhausted: true, ..idle })
            } else {
                r == Err::<(), HdfsError>(e) && post == idle.between_pages()
            },
            (Awaited::Dir(_), Err(e)) => if e.kind is FileNotFound || denies_directory(e.kind) {
                r is Ok && post == idle
            } else {
                r == Err::<(), HdfsError>(e) && post == idle.between_pages()
            },
        }
    }
}

// ---------------------------------------------------------------------------------------
// The merge
// ---------------------------------------------------------------------------------------

/// One opened directory: its entries not taken yet, the next one last.
struct Cursor {
    entries: Vec<FileStatus>,
}

/// The entries are in descending path order.
spec fn descending(s: Seq<FileStatus>) -> bool {
    forall|i: int, j: int|
        0 <= i < j < s.len() ==> key_le(#[trigger] s[j].sort_key(), #[trigger] s[i].sort_key())
}

impl Cursor {
    spec fn wf(&self) -> bool {
        self.entries@.len() > 0 && descending(self.entries@)
    }

    spec fn front(&self) -> Seq<char> {
        self.entries@.last().sort_key()
    }

    /// The path of the next entry.
    fn front_path(&self) -> (p: &str)
        requires
            self.wf(),
        ensures
            p@ == self.front(),
    {
        self.entries[self.entries.len() - 1].path.as_str()
    }
}

/// All entries of `cursors`.
spec fn held(cursors: Seq<Cursor>) -> Multiset<FileStatus>
    decreases cursors.len(),
{
    if cursors.len() == 0 {
        Multiset::empty()
    } else {
        held(cursors.drop_last()).add(cursors.last().entries@.to_multiset())
    }
}

/// Taking one cursor out leaves the entries of the others.
proof fn lemma_held_remove(cursors: Seq<Cursor>, i: int)
    requires
        0 <= i < cursors.len(),
    ensures
        held(cursors) == held(cursors.remove(i)).add(cursors[i].entries@.to_multiset()),
    decreases cursors.len(),
{
    if i == cursors.len() - 1 {
        assert(cursors.remove(i) =~= cursors.drop_last());
    } else {
        lemma_held_remove(cursors.drop_last(), i);
        assert(cursors.remove(i).drop_last() =~= cursors.drop_last().remove(i));
        assert(cursors.remove(i).last() == cursors.last());
        assert(held(cursors) =~= held(cursors.remove(i)).add(cursors[i].entries@.to_multiset()));
    }
}

/// What the cursors hold, one of them holds.
proof fn lemma_held_contains(cursors: Seq<Cursor>, x: FileStatus)
    requires
        held(cursors).contains(x),
    ensures
        exists|i: int| 0 <= i < cursors.len() && (#[trigger] cursors[i]).entries@.contains(x),
    decreases cursors.len(),
{
    broadcast use vstd::seq_lib::group_to_multiset_ensures;

    if cursors.len() > 0 {
        let n = cursors.len() - 1;
        if cursors.last().entries@.to_multiset().contains(x) {
            assert(cursors[n].entries@.contains(x));
        } else {
            lemma_held_contains(cursors.drop_last(), x);
            let i = choose|i: int|
                0 <= i < n && (#[trigger] cursors.drop_last()[i]).entries@.contains(x);
            assert(cursors[i].entries@.contains(x));
        }
    }
}

/// Every cursor is non-empty and in order.
spec fn all_wf(cursors: Seq<Cursor>) -> bool {
    forall|i: int| 0 <= i < cursors.len() ==> (#[trigger] cursors[i]).wf()
}

/// A cursor whose front is not after any other front holds the smallest entry of all.
proof fn lemma_front_least(cursors: Seq<Cursor>, m: int, x: FileStatus)
    requires
        all_wf(cursors),
        0 <= m < cursors.len(),
        forall|i: int|
            0 <= i < cursors.len() ==> key_le(
                cursors[m].front(),
                #[trigger] cursors[i].front(),
            ),
        held(cursors).contains(x),
    ensures
        key_le(cursors[m].front(), x.sort_key()),
{
    lemma_held_contains(cursors, x);
    let i = choose|i: int|
        0 <= i < cursors.len() && (#[trigger] cursors[i]).entries@.contains(x);
    let e = cursors[i].entries@;
    assert(cursors[i].wf());
    let j = choose|j: int| 0 <= j < e.len() && e[j] == x;
    if j < e.len() - 1 {
        assert(key_le(e[e.len() - 1].sort_key(), e[j].sort_key()));
    }
    assert(key_le(cursors[i].front(), x.sort_key()));
    assert(key_le(cursors[m].front(), cursors[i].front()));
    lemma_key_le_transitive(cursors[m].front(), cursors[i].front(), x.sort_key());
}

/// Take the smallest entry out of the cursors.
fn take_next(cursors: &mut Vec<Cursor>) -> (r: Option<FileStatus>)
    requires
        all_wf(old(cursors)@),
    ensures
        all_wf(final(cursors)@),
        match r {
            None => *final(cursors) == *old(cursors) && held(old(cursors)@) == Multiset::<
                FileStatus,
            >::empty(),
            Some(s) => {
                &&& held(old(cursors)@) == held(final(cursors)@).insert(s)
                &&& forall|x: FileStatus| #[trigger]
                    held(final(cursors)@).contains(x) ==> key_le(s.sort_key(), x.sort_key())
            },
        },
{
    broadcast use vstd::seq_lib::group_to_multiset_ensures;

    if cursors.len() == 0 {
        return None;
    }
    let mut m: usize = 0;
    let mut i: usize = 1;
    while i < cursors.len()
        invariant
            all_wf(cursors@),
            m < i <= cursors.len(),
            *cursors == *old(cursors),
            forall|k: int|
                0 <= k < i ==> key_le(
                    cursors@[m as int].front(),
                    #[trigger] cursors@[k].front(),
                ),
        decreases cursors.len() - i,
    {
        assert(cursors@[i as int].wf());
        assert(cursors@[m as int].wf());
        let ghost least = cursors@[m as int].front();
        let ghost here = cursors@[i as int].front();
        if key_less(cursors[i].front_path(), cursors[m].front_path()) {
            proof {
                assert forall|k: int| 0 <= k < i + 1 implies key_le(
                    here,
                    #[trigger] cursors@[k].front(),
                ) by {
                    if k < i {
                        lemma_key_le_transitive(here, least, cursors@[k].front());
                    }
                }
            }
            m = i;
        } else {
            proof {
                lemma_key_lt_total(least, here);
            }
        }
        i += 1;
    }
    let ghost before = cursors@;
    let mut cursor = cursors.remove(m);
    proof {
        lemma_held_remove(before, m as int);
        assert(before[m as int].wf());
        assert forall|k: int| 0 <= k < cursors@.len() implies (#[trigger] cursors@[k]).wf() by {
            if k < m {
                assert(cursors@[k] == before[k]);
            } else {
                assert(cursors@[k] == before[k + 1]);
            }
        }
    }
    let ghost run = cursor.entries@;
    let next = cursor.entries.pop();
    let ghost rest = cursor.entries@;
    let ghost others = cursors@;
    proof {
        assert(run =~= rest.push(run.last()));
    }
    if cursor.entries.len() > 0 {
        proof {
            assert forall|a: int, b: int| 0 <= a < b < rest.len() implies key_le(
                #[trigger] rest[b].sort_key(),
                #[trigger] rest[a].sort_key(),
            ) by {
                assert(rest[a] == run[a] && rest[b] == run[b]);
            }
            assert(cursor.wf());
        }
        cursors.push(cursor);
        proof {
            assert(cursors@.drop_last() =~= others);
            assert(held(cursors@) == held(others).add(rest.to_multiset()));
        }
    } else {
        proof {
            assert(rest =~= Seq::<FileStatus>::empty());
            assert(held(others) =~= held(others).add(rest.to_multiset()));
        }
    }
    proof {
        let s = run.last();
        assert(held(before) =~= held(cursors@).insert(s));
        assert forall|x: FileStatus| #[trigger] held(cursors@).contains(x) implies key_le(
            s.sort_key(),
            x.sort_key(),
        ) by {
            assert(held(before).contains(x));
            lemma_front_least(before, m as int, x);
        }
    }
    next
}

/// What a merge waits for.
enum Waiting {
    Nothing,
    Start,
    Dir(String),
}

/// A lazy, sorted merge over per-directory listings.
///
/// The start directory is asked for first; every other directory only when its path is the
/// smallest entry left, and never if nothing under it can match the prefix or sort after
/// the marker.
pub struct SortedListing {
    mapper: PathMapper,
    prefix: String,
    after: Option<String>,
    start: String,
    cursors: Vec<Cursor>,
    waiting: Waiting,
    start_seeded: bool,
    exhausted: bool,
    page: Vec<ListEntry>,
    limit: Option<usize>,
}

/// The query of a listing.
pub open spec fn query_of(
    mapper: PathMapper,
    prefix: Seq<char>,
    after: Option<String>,
) -> Query {
    Query {
        root: mapper.root_view(),
        prefix,
        after: match after {
            Some(a) => Some(a@),
            None => None,
        },
    }
}

/// One more entry taken, not before those taken so far and not after any that is left.
proof fn lemma_takes_push(
    before: Multiset<FileStatus>,
    taken: Seq<FileStatus>,
    mid: Multiset<FileStatus>,
    s: FileStatus,
    after: Multiset<FileStatus>,
)
    requires
        takes(before, taken, mid),
        mid == after.insert(s),
        forall|x: FileStatus| #[trigger] after.contains(x) ==> key_le(s.sort_key(), x.sort_key()),
    ensures
        takes(before, taken.push(s), after),
{
    broadcast use vstd::seq_lib::group_to_multiset_ensures;

    let more = taken.push(s);
    assert(mid.contains(s));
    assert(before =~= more.to_multiset().add(after));
    assert forall|i: int, j: int| 0 <= i < j < more.len() implies key_le(
        #[trigger] more[i].sort_key(),
        #[trigger] more[j].sort_key(),
    ) by {
        assert(more[i] == taken[i]);
        if j < taken.len() {
            assert(more[j] == taken[j]);
        } else {
            assert(taken.contains(taken[i]));
        }
    }
    assert forall|x: FileStatus, y: FileStatus|
        more.contains(x) && #[trigger] after.contains(y) implies key_le(
        #[trigger] x.sort_key(),
        y.sort_key(),
    ) by {
        let i = choose|i: int| 0 <= i < more.len() && more[i] == x;
        if i < taken.len() {
            assert(taken.contains(taken[i]));
            assert(mid.contains(y));
        }
    }
}

/// Entries taken, and then more of them.
proof fn lemma_takes_concat(
    before: Multiset<FileStatus>,
    a: Seq<FileStatus>,
    mid: Multiset<FileStatus>,
    b: Seq<FileStatus>,
    after: Multiset<FileStatus>,
)
    requires
        takes(before, a, mid),
        takes(mid, b, after),
    ensures
        takes(before, a + b, after),
{
    broadcast use vstd::seq_lib::group_to_multiset_ensures;

    let all = a + b;
    vstd::seq_lib::lemma_multiset_commutative(a, b);
    assert(before =~= all.to_multiset().add(after));
    assert forall|y: FileStatus| #[trigger] after.contains(y) || b.contains(y) implies mid.contains(
        y,
    ) by {
        assert(mid.count(y) == b.to_multiset().count(y) + after.count(y));
    }
    assert forall|i: int, j: int| 0 <= i < j < all.len() implies key_le(
        #[trigger] all[i].sort_key(),
        #[trigger] all[j].sort_key(),
    ) by {
        if j < a.len() {
            assert(all[i] == a[i] && all[j] == a[j]);
        } else if i < a.len() {
            let y = b[j - a.len()];
            assert(all[i] == a[i] && all[j] == y);
            assert(a.contains(a[i]) && b.contains(y));
            assert(mid.contains(y));
        } else {
            assert(all[i] == b[i - a.len()] && all[j] == b[j - a.len()]);
        }
    }
    assert forall|x: FileStatus, y: FileStatus|
        all.contains(x) && #[trigger] after.contains(y) implies key_le(
        #[trigger] x.sort_key(),
        y.sort_key(),
    ) by {
        let i = choose|i: int| 0 <= i < all.len() && all[i] == x;
        assert(mid.contains(y));
        if i < a.len() {
            assert(a.contains(a[i]));
        } else {
            assert(b.contains(b[i - a.len()]));
        }
    }
}

/// Nothing is wanted of entries that are passed over.
pub proof fn lemma_passes_wanted(q: Query, taken: Seq<FileStatus>)
    requires
        passes(q, taken),
    ensures
        q.wanted(taken) == Seq::<FileStatus>::empty(),
    decreases taken.len(),
{
    reveal(Seq::filter);
    if taken.len() > 0 {
        let front = taken.drop_last();
        assert forall|i: int| 0 <= i < front.len() implies !q.opens(#[trigger] front[i])
            && !q.wants(front[i]) by {
            assert(front[i] == taken[i]);
        }
        lemma_passes_wanted(q, front);
        assert(taken.last() == taken[taken.len() - 1]);
    }
}

/// What a pull takes, after what was taken before: entries to open and to emit only where the
/// pull ends.
proof fn lemma_pull_taken(q: Query, before: Seq<FileStatus>, taken: Seq<FileStatus>)
    requires
        opens_none(q, before),
        taken.len() > 0 ==> passes(q, taken.drop_last()),
    ensures
        passes(q, taken) ==> opens_none(q, before + taken) && q.wanted(before + taken) == q.wanted(
            before,
        ),
        taken.len() > 0 ==> (before + taken).last() == taken.last() && opens_none(
            q,
            (before + taken).drop_last(),
        ) && q.wanted((before + taken).drop_last()) == q.wanted(before),
        taken.len() > 0 && !q.opens(taken.last()) ==> opens_none(q, before + taken),
        taken.len() > 0 ==> q.wanted(before + taken) == if q.wants(taken.last()) {
            q.wanted(before).push(taken.last())
        } else {
            q.wanted(before)
        },
{
    let all = before + taken;
    let wants = |s: FileStatus| q.wants(s);
    if passes(q, taken) {
        lemma_passes_wanted(q, taken);
        Seq::filter_distributes_over_add(before, taken, wants);
        assert(q.wanted(before) + Seq::<FileStatus>::empty() =~= q.wanted(before));
    }
    if taken.len() > 0 {
        let front = taken.drop_last();
        lemma_passes_wanted(q, front);
        Seq::filter_distributes_over_add(before, front, wants);
        assert(q.wanted(before) + Seq::<FileStatus>::empty() =~= q.wanted(before));
        assert(all.drop_last() =~= before + front);
        assert(all =~= (before + front).push(taken.last()));
        lemma_wanted_push(q, before + front, taken.last());
        assert forall|i: int| 0 <= i < all.len() - 1 implies !q.opens(#[trigger] all[i]) by {
            if i >= before.len() {
                assert(all[i] == front[i - before.len()]);
            } else {
                assert(all[i] == before[i]);
            }
        }
        assert forall|i: int| 0 <= i < all.drop_last().len() implies !q.opens(
            #[trigger] all.drop_last()[i],
        ) by {
            assert(all.drop_last()[i] == all[i]);
        }
        if !q.opens(taken.last()) {
            assert forall|i: int| 0 <= i < all.len() implies !q.opens(#[trigger] all[i]) by {
                if i == all.len() - 1 {
                    assert(all[i] == taken.last());
                }
            }
        }
    }
}

/// One more entry taken is one more entry wanted, or none.
pub proof fn lemma_wanted_push(q: Query, taken: Seq<FileStatus>, s: FileStatus)
    ensures
        q.wanted(taken.push(s)) == if q.wants(s) {
            q.wanted(taken).push(s)
        } else {
            q.wanted(taken)
        },
{
    reveal(Seq::filter);
    assert(taken.push(s).drop_last() =~= taken);
}

impl SortedListing {
    /// The state of the merge.
    pub closed spec fn merge(&self) -> Merge {
        Merge {
            query: query_of(self.mapper, self.prefix@, self.after),
            start: self.start@,
            frontier: held(self.cursors@),
            awaited: match self.waiting {
                Waiting::Nothing => Awaited::Nothing,
                Waiting::Start => Awaited::Start,
                Waiting::Dir(d) => Awaited::Dir(d@),
            },
            seeded: self.start_seeded,
            exhausted: self.exhausted,
            page: self.page@,
            limit: match self.limit {
                Some(n) => Some(n as nat),
                None => None,
            },
        }
    }

    /// The merge is well-formed and its runs are sorted.
    pub closed spec fn wf(&self) -> bool {
        &&& self.merge().wf()
        &&& all_wf(self.cursors@)
    }

    /// A listing that has not begun.
    ///
    /// `start` is the HDFS directory the walk is bounded to (from
    /// [`PathMapper::list_start`]); `after` is the decoded continuation marker.
    pub fn new(start: String, prefix: String, after: Option<String>, mapper: PathMapper) -> (r:
        Self)
        ensures
            r.wf(),
            r.merge() == Merge::fresh(query_of(mapper, prefix@, after), start@),
    {
        SortedListing {
            mapper,
            prefix,
            after,
            start,
            cursors: Vec::new(),
            waiting: Waiting::Nothing,
            start_seeded: false,
            exhausted: false,
            page: Vec::new(),
            limit: None,
        }
    }

    /// The key of an entry that must be opened or emitted; `None` for one to pass over.
    fn key_of(&self, entry: &FileStatus) -> (r: Option<String>)
        ensures
            r is Some <==> self.merge().query.opens(*entry) || self.merge().query.wants(*entry),
            r matches Some(k) ==> key_of_path(self.merge().query.root, entry.path@) == Some(k@),
    {
        let key = match self.mapper.hdfs_path_to_key(entry.path.as_str()) {
            Some(key) => key,
            None => {
                return None;
            },
        };
        if !starts_with(key.as_str(), self.prefix.as_str()) {
            return None;
        }
        if let Some(after) = &self.after {
            let past = if entry.isdir {
                dir_children_all_before(key.as_str(), after.as_str())
            } else {
                !key_less(after.as_str(), key.as_str())
            };
            if past {
                return None;
            }
        }
        Some(key)
    }

    /// Add a directory's children as a new run, sorted by raw path bytes.
    fn push_dir(&mut self, statuses: Vec<FileStatus>)
        requires
            all_wf(old(self).cursors@),
        ensures
            all_wf(final(self).cursors@),
            final(self).merge() == (Merge {
                frontier: old(self).merge().frontier.add(statuses@.to_multiset()),
                ..old(self).merge()
            }),
    {
        broadcast use vstd::seq_lib::group_to_multiset_ensures;

        let ghost input = statuses@;
        let ghost before = self.cursors@;
        let ascending = sort_by_key(statuses);
        let ghost all = ascending@;
        proof {
            lemma_stable_sort_permutes(input, all);
        }
        let entries = reversed(ascending);
        proof {
            all.lemma_reverse_to_multiset();
            assert forall|i: int, j: int| 0 <= i < j < entries@.len() implies key_le(
                #[trigger] entries@[j].sort_key(),
                #[trigger] entries@[i].sort_key(),
            ) by {
                assert(entries@[i] == all[all.len() - 1 - i]);
                assert(entries@[j] == all[all.len() - 1 - j]);
            }
        }
        if entries.len() > 0 {
            self.cursors.push(Cursor { entries });
            assert(self.cursors@.drop_last() =~= before);
        } else {
            assert(input.to_multiset() =~= Multiset::empty()) by {
                assert(input =~= Seq::<FileStatus>::empty());
            }
        }
        assert(self.merge() =~= (Merge {
            frontier: old(self).merge().frontier.add(input.to_multiset()),
            ..old(self).merge()
        }));
    }

    /// The next entry in byte order, or the directory whose listing is needed before it can be
    /// told.
    pub fn next_entry(&mut self) -> (out: PullStep)
        requires
            old(self).wf(),
        ensures
            final(self).wf(),
            old(self).merge().pulls(final(self).merge(), out),
    {
        match &self.waiting {
            Waiting::Start => {
                return PullStep::List(self.start.clone());
            },
            Waiting::Dir(dir) => {
                return PullStep::List(dir.clone());
            },
            Waiting::Nothing => {},
        }
        if self.exhausted {
            return PullStep::Done;
        }
        let ghost pre = self.merge();
        if !self.start_seeded {
            self.start_seeded = true;
            self.waiting = Waiting::Start;
            return PullStep::List(self.start.clone());
        }
        let ghost q = pre.query;
        let ghost mut taken = Seq::<FileStatus>::empty();
        proof {
            broadcast use vstd::seq_lib::group_to_multiset_ensures;

            assert(pre.frontier =~= taken.to_multiset().add(pre.frontier));
        }
        loop
            invariant
                all_wf(self.cursors@),
                self.merge() == (Merge { frontier: self.merge().frontier, ..pre }),
                pre.wf(),
                pre.seeded,
                !pre.exhausted,
                pre.awaited is Nothing,
                q == pre.query,
                pre == old(self).merge(),
                takes(pre.frontier, taken, self.merge().frontier),
                passes(q, taken),
            decreases self.merge().frontier.len(),
        {
            let ghost mid = self.merge();
            let ghost before = taken;
            let entry = match take_next(&mut self.cursors) {
                None => {
                    self.exhausted = true;
                    proof {
                        assert(self.merge() =~= (Merge {
                            frontier: Multiset::empty(),
                            exhausted: true,
                            ..pre
                        }));
                        assert(pre.pulls_nothing(taken, self.merge()));
                    }
                    return PullStep::Done;
                },
                Some(entry) => entry,
            };
            proof {
                taken = before.push(entry);
                lemma_takes_push(pre.frontier, before, mid.frontier, entry, self.merge().frontier);
                assert(taken.drop_last() =~= before);
                assert(self.merge() =~= (Merge { frontier: self.merge().frontier, ..mid }));
            }
            if let Some(key) = self.key_of(&entry) {
                if entry.isdir {
                    self.waiting = Waiting::Dir(entry.path.clone());
                    proof {
                        assert(self.merge() =~= (Merge {
                            frontier: self.merge().frontier,
                            awaited: Awaited::Dir(entry.path@),
                            ..pre
                        }));
                        assert(pre.pulls_dir(taken, self.merge(), entry.path@));
                    }
                    return PullStep::List(entry.path);
                }
                let found = ListEntry {
                    key,
                    size: entry.length as u64,
                    modification_time: entry.modification_time,
                };
                assert(pre.pulls_entry(taken, self.merge(), found));
                return PullStep::Entry(found);
            }
        }
    }

    /// Work towards a page of at most `max_keys` entries: the page, or the directory whose
    /// listing is needed before it can be finished.
    ///
    /// The page ends at the limit, and one entry beyond it is probed to tell whether more
    /// keys exist, so a limit of zero still reports truncation. A page in progress keeps the
    /// limit it was begun with.
    pub fn collect_page(&mut self, max_keys: usize) -> (out: PageStep)
        requires
            old(self).wf(),
        ensures
            final(self).wf(),
            old(self).merge().steps(max_keys as nat, final(self).merge(), out),
    {
        match &self.waiting {
            Waiting::Start => {
                return PageStep::List(self.start.clone());
            },
            Waiting::Dir(dir) => {
                return PageStep::List(dir.clone());
            },
            Waiting::Nothing => {},
        }
        let ghost pre = self.merge();
        if self.exhausted {
            let page = self.end_page();
            return PageStep::Page(page, false);
        }
        let limit: usize = match self.limit {
            Some(n) => n,
            None => max_keys,
        };
        if !self.start_seeded {
            self.start_seeded = true;
            self.waiting = Waiting::Start;
            self.limit = Some(limit);
            return PageStep::List(self.start.clone());
        }
        self.limit = Some(limit);
        let ghost q = pre.query;
        let ghost mut taken = Seq::<FileStatus>::empty();
        let ghost mut more = Seq::<ListEntry>::empty();
        proof {
            reveal(Seq::filter);
            broadcast use vstd::seq_lib::group_to_multiset_ensures;

            assert(pre.frontier =~= taken.to_multiset().add(pre.frontier));
            assert(pre.page =~= pre.page + more);
        }
        loop
            invariant
                self.wf(),
                self.merge() == (Merge {
                    frontier: self.merge().frontier,
                    page: pre.page + more,
                    limit: Some(limit as nat),
                    ..pre
                }),
                pre.wf(),
                pre.seeded,
                !pre.exhausted,
                pre.awaited is Nothing,
                limit == pre.limit_or(max_keys as nat),
                q == pre.query,
                pre == old(self).merge(),
                takes(pre.frontier, taken, self.merge().frontier),
                opens_none(q, taken),
                lists(q.root, q.wanted(taken), more),
                pre.page.len() + more.len() <= limit,
            decreases self.merge().frontier.len(),
        {
            let ghost mid = self.merge();
            let ghost before = taken;
            match self.next_entry() {
                PullStep::Done => {
                    proof {
                        let t = choose|t: Seq<FileStatus>| #[trigger]
                            mid.pulls_nothing(t, self.merge());
                        taken = before + t;
                        lemma_takes_concat(
                            pre.frontier,
                            before,
                            mid.frontier,
                            t,
                            Multiset::empty(),
                        );
                        assert(t.len() > 0 ==> passes(q, t.drop_last())) by {
                            if t.len() > 0 {
                                assert forall|i: int| 0 <= i < t.len() - 1 implies !q.opens(
                                    #[trigger] t.drop_last()[i],
                                ) && !q.wants(t.drop_last()[i]) by {
                                    assert(t.drop_last()[i] == t[i]);
                                }
                            }
                        }
                        lemma_pull_taken(q, before, t);
                    }
                    let page = self.end_page();
                    proof {
                        assert(self.merge() =~= (Merge {
                            frontier: Multiset::empty(),
                            exhausted: true,
                            ..pre
                        }).between_pages());
                        assert(pre.runs_out(limit as nat, taken, more, self.merge(), page@));
                    }
                    return PageStep::Page(page, false);
                },
                PullStep::List(dir) => {
                    proof {
                        let t = choose|t: Seq<FileStatus>| #[trigger]
                            mid.pulls_dir(t, self.merge(), dir@);
                        taken = before + t;
                        lemma_takes_concat(
                            pre.frontier,
                            before,
                            mid.frontier,
                            t,
                            self.merge().frontier,
                        );
                        lemma_pull_taken(q, before, t);
                        assert(self.merge() =~= (Merge {
                            frontier: self.merge().frontier,
                            awaited: Awaited::Dir(dir@),
                            page: pre.page + more,
                            limit: Some(limit as nat),
                            ..pre
                        }));
                        assert(pre.reaches_dir(limit as nat, taken, more, self.merge(), dir@));
                    }
                    return PageStep::List(dir);
                },
                PullStep::Entry(found) => {
                    proof {
                        broadcast use vstd::seq_lib::group_to_multiset_ensures;

                        let t = choose|t: Seq<FileStatus>| #[trigger]
                            mid.pulls_entry(t, self.merge(), found);
                        taken = before + t;
                        lemma_takes_concat(
                            pre.frontier,
                            before,
                            mid.frontier,
                            t,
                            self.merge().frontier,
                        );
                        lemma_pull_taken(q, before, t);
                        assert(t.to_multiset().len() == t.len());
                    }
                    if self.page.len() == limit {
                        let page = self.end_page();
                        proof {
                            assert(self.merge() =~= (Merge {
                                frontier: self.merge().frontier,
                                ..pre
                            }).between_pages());
                            assert(pre.fills_page(limit as nat, taken, more, self.merge(), page@));
                        }
                        return PageStep::Page(page, true);
                    }
                    proof {
                        let grown = more.push(found);
                        assert((pre.page + more).push(found) =~= pre.page + grown);
                        more = grown;
                    }
                    self.page.push(found);
                    assert(self.merge() =~= (Merge {
                        frontier: self.merge().frontier,
                        page: pre.page + more,
                        limit: Some(limit as nat),
                        ..pre
                    }));
                },
            }
        }
    }

    /// Hand the page over and leave none in progress.
    fn end_page(&mut self) -> (page: Vec<ListEntry>)
        ensures
            page@ == old(self).merge().page,
            final(self).cursors == old(self).cursors,
            final(self).merge() == old(self).merge().between_pages(),
    {
        let mut page: Vec<ListEntry> = Vec::new();
        page.append(&mut self.page);
        self.limit = None;
        assert(page@ =~= old(self).page@);
        assert(self.merge() =~= old(self).merge().between_pages());
        page
    }

    /// Take the answer to the listing that [`SortedListing::collect_page`] asked for.
    ///
    /// A missing start directory makes an empty listing. A subdirectory that vanished, or
    /// that the HDFS user may not read, is skipped and the merge goes on. Every other
    /// failure is handed back and the page in progress is dropped: a subtree must not
    /// silently disappear from a listing that the client will believe is complete.
    pub fn supply(&mut self, answer: Result<Vec<FileStatus>, HdfsError>) -> (r: Result<
        (),
        HdfsError,
    >)
        requires
            old(self).wf(),
        ensures
            final(self).wf(),
            old(self).merge().answered(
                match answer {
                    Ok(v) => Ok(v@),
                    Err(e) => Err(e),
                },
                final(self).merge(),
                r,
            ),
    {
        let at_start = match &self.waiting {
            Waiting::Nothing => {
                return Ok(());
            },
            Waiting::Start => true,
            Waiting::Dir(_) => false,
        };
        self.waiting = Waiting::Nothing;
        assert(self.merge() =~= (Merge { awaited: Awaited::Nothing, ..old(self).merge() }));
        match answer {
            Ok(statuses) => {
                self.push_dir(statuses);
                Ok(())
            },
            Err(e) => {
                let missing = match &e.kind {
                    HdfsErrorKind::FileNotFound => true,
                    _ => false,
                };
                if at_start && missing {
                    self.exhausted = true;
                    Ok(())
                } else if !at_start && (missing || is_dir_denied(&e)) {
                    Ok(())
                } else {
                    self.page = Vec::new();
                    self.limit = None;
                    Err(e)
                }
            },
        }
    }
}

// ---------------------------------------------------------------------------------------
// Laws of the executable functions
// ---------------------------------------------------------------------------------------

/// A directory may be skipped just when whatever could lie in it sorts before the marker.
pub proof fn law_skipped_directories(dir_key: &str, after: &str, r: bool)
    requires
        call_ensures(dir_children_all_before, (dir_key, after), r),
    ensures
        r <==> forall|name: Seq<char>| key_lt(#[trigger] (dir_key@.push('/') + name), after@),
{
    law_children_all_before(dir_key@, after@);
}

/// A listing begins with nothing asked for and nothing found, and lists what it was made for.
pub proof fn law_new_listing(
    start: String,
    prefix: String,
    after: Option<String>,
    mapper: PathMapper,
    root: &str,
    listing: SortedListing,
)
    requires
        call_ensures(SortedListing::new, (start, prefix, after, mapper), listing),
        call_ensures(PathMapper::root, (&mapper,), root),
    ensures
        listing.merge().query.root == root@,
        listing.merge().query.prefix == prefix@,
        after matches Some(key) ==> listing.merge().query.after == Some(key@),
        after is None ==> listing.merge().query.after is None,
        listing.merge().start == start@,
        listing.merge().frontier == Multiset::<FileStatus>::empty(),
        listing.merge().awaited is Nothing,
        !listing.merge().seeded,
        !listing.merge().exhausted,
        listing.merge().page.len() == 0,
        listing.merge().limit is None,
        listing.wf(),
{
}

/// A listing goes on listing the same, whatever is asked of it and answered to it.
pub proof fn law_listing_keeps_its_query(
    pulled: &mut SortedListing,
    entry: PullStep,
    collected: &mut SortedListing,
    max_keys: usize,
    page: PageStep,
    supplied: &mut SortedListing,
    answer: Result<Vec<FileStatus>, HdfsError>,
    r: Result<(), HdfsError>,
)
    requires
        call_ensures(SortedListing::next_entry, (pulled,), entry),
        call_ensures(SortedListing::collect_page, (collected, max_keys), page),
        call_ensures(SortedListing::supply, (supplied, answer), r),
    ensures
        final(pulled).merge().query == old(pulled).merge().query,
        final(pulled).merge().start == old(pulled).merge().start,
        final(collected).merge().query == old(collected).merge().query,
        final(collected).merge().start == old(collected).merge().start,
        final(supplied).merge().query == old(supplied).merge().query,
        final(supplied).merge().start == old(supplied).merge().start,
{
}

/// An answer puts what it lists on the frontier, all of it and nothing else.
pub proof fn law_answers_are_taken(
    listing: &mut SortedListing,
    statuses: Vec<FileStatus>,
    r: Result<(), HdfsError>,
)
    requires
        call_ensures(SortedListing::supply, (listing, Ok::<Vec<FileStatus>, HdfsError>(statuses)), r),
    ensures
        r is Ok,
        old(listing).merge().awaited is Nothing
            ==> final(listing).merge().frontier == old(listing).merge().frontier,
        !(old(listing).merge().awaited is Nothing)
            ==> final(listing).merge().frontier
            == old(listing).merge().frontier.add(statuses@.to_multiset()),
        final(listing).merge().awaited is Nothing,
        final(listing).merge().exhausted == old(listing).merge().exhausted,
        final(listing).merge().page == old(listing).merge().page,
{
}

/// What a failed listing means. A start directory that is not there makes the listing empty, and
/// a directory below it that is gone or may not be read is passed over; any other failure is
/// reported as it is.
pub proof fn law_failed_answers(
    listing: &mut SortedListing,
    e: HdfsError,
    r: Result<(), HdfsError>,
    denied: bool,
)
    requires
        call_ensures(SortedListing::supply, (listing, Err::<Vec<FileStatus>, HdfsError>(e)), r),
        call_ensures(is_dir_denied, (&e,), denied),
    ensures
        old(listing).merge().awaited is Nothing ==> r is Ok,
        old(listing).merge().awaited is Start ==> (r is Ok <==> e.kind is FileNotFound),
        old(listing).merge().awaited is Start && e.kind is FileNotFound
            ==> final(listing).merge().exhausted,
        old(listing).merge().awaited is Dir ==> (r is Ok <==> e.kind is FileNotFound || denied),
        old(listing).merge().awaited is Dir
            ==> final(listing).merge().exhausted == old(listing).merge().exhausted,
        old(listing).merge().awaited is Dir && r is Ok
            ==> final(listing).merge().page == old(listing).merge().page,
        r matches Err(f) ==> f == e,
        final(listing).merge().frontier == old(listing).merge().frontier,
        final(listing).merge().awaited is Nothing,
{
}

/// A page keeps the limit that it was begun with, however often it has to ask, and holds no more
/// entries than that.
pub proof fn law_page_keeps_its_limit(
    listing: &mut SortedListing,
    max_keys: usize,
    limit: nat,
    out: PageStep,
)
    requires
        old(listing).wf(),
        call_ensures(SortedListing::collect_page, (listing, max_keys), out),
        old(listing).merge().limit matches Some(n) ==> limit == n,
        old(listing).merge().limit is None ==> limit == max_keys,
    ensures
        out is List && old(listing).merge().awaited is Nothing ==> final(listing).merge().limit
            == Some(limit),
        out matches PageStep::Page(entries, truncated) ==> entries@.len() <= limit && (truncated
            ==> entries@.len() == limit) && final(listing).merge().limit is None
                && final(listing).merge().page.len() == 0,
        out matches PageStep::Page(entries, _) ==> old(listing).merge().page.is_prefix_of(
            entries@,
        ),
{
    let before = old(listing).merge();
    let after = final(listing).merge();
    if let PageStep::Page(entries, truncated) = out {
        if before.exhausted {
            assert(entries@.subrange(0, before.page.len() as int) =~= before.page);
        } else if truncated {
            let (t, more) = choose|t: Seq<FileStatus>, more: Seq<ListEntry>| #[trigger]
                before.fills_page(limit, t, more, after, entries@);
            assert(entries@.subrange(0, before.page.len() as int) =~= before.page);
        } else {
            let (t, more) = choose|t: Seq<FileStatus>, more: Seq<ListEntry>| #[trigger]
                before.runs_out(limit, t, more, after, entries@);
            assert(entries@.subrange(0, before.page.len() as int) =~= before.page);
        }
    }
}

} // verus!
