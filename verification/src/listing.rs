//! Listing logic: S3 `Contents` and `CommonPrefixes` from HDFS keys, pages of them, and
//! continuation tokens.

use crate::sort::{
    is_stable_sort, lemma_stable_sort_permutes, lemma_stable_sort_unique, reversed, sort_by_key,
    sorted, Keyed,
};
use crate::text::{
    key_le, key_less, key_lt, lemma_key_le_transitive, lemma_key_lt_asymmetric,
    lemma_key_lt_irreflexive, lemma_key_lt_total, lemma_key_lt_transitive, same_text, starts_with,
    to_chars,
};
use vstd::prelude::*;

verus! {

/// A single object entry produced by listing.
#[derive(Debug, Clone, PartialEq, Eq)]
pub struct ListEntry {
    pub key: String,
    pub size: u64,
    pub modification_time: u64,
}

impl Keyed for ListEntry {
    open spec fn sort_key(&self) -> Seq<char> {
        self.key@
    }

    fn key_text(&self) -> (k: &str) {
        self.key.as_str()
    }
}

/// Another entry with the same fields.
pub(crate) fn copy_entry(e: &ListEntry) -> (r: ListEntry)
    ensures
        r == *e,
{
    ListEntry { key: e.key.clone(), size: e.size, modification_time: e.modification_time }
}

// ---------------------------------------------------------------------------------------
// Grouping
// ---------------------------------------------------------------------------------------

/// `pattern` stands in `s` at position `i`.
pub open spec fn occurs_at(s: Seq<char>, pattern: Seq<char>, i: int) -> bool {
    0 <= i && i + pattern.len() <= s.len() && s.subrange(i, i + pattern.len()) == pattern
}

/// The first position from `i` on at which `pattern` stands in `s`.
pub open spec fn find_from(s: Seq<char>, pattern: Seq<char>, i: int) -> Option<int>
    decreases s.len() + 1 - i,
{
    if i < 0 || i + pattern.len() > s.len() {
        None
    } else if occurs_at(s, pattern, i) {
        Some(i)
    } else {
        find_from(s, pattern, i + 1)
    }
}

/// `key` up to and with the first `delimiter` after `prefix`; `None` if there is none.
pub open spec fn group_of(
    key: Seq<char>,
    prefix: Seq<char>,
    delimiter: Seq<char>,
) -> Option<Seq<char>> {
    match find_from(key, delimiter, prefix.len() as int) {
        Some(i) => Some(key.take(i + delimiter.len())),
        None => None,
    }
}

/// The CommonPrefix that a key collapses into, if it does. An empty delimiter groups nothing.
pub open spec fn collapsed(
    key: Seq<char>,
    prefix: Seq<char>,
    delimiter: Option<Seq<char>>,
) -> Option<Seq<char>> {
    match delimiter {
        Some(d) if d.len() > 0 => group_of(key, prefix, d),
        _ => None,
    }
}

/// A key that is listed as an object of its own.
pub open spec fn is_content(
    key: Seq<char>,
    prefix: Seq<char>,
    delimiter: Option<Seq<char>>,
) -> bool {
    prefix.is_prefix_of(key) && collapsed(key, prefix, delimiter) is None
}

/// `p` is the CommonPrefix of one of the first `n` files.
pub open spec fn groups_file(
    files: Seq<ListEntry>,
    n: int,
    prefix: Seq<char>,
    delimiter: Option<Seq<char>>,
    p: Seq<char>,
) -> bool {
    exists|i: int|
        0 <= i < n && prefix.is_prefix_of((#[trigger] files[i]).key@) && collapsed(
            files[i].key@,
            prefix,
            delimiter,
        ) == Some(p)
}

/// The files that are listed as objects of their own, in their order.
pub open spec fn contents_of(
    files: Seq<ListEntry>,
    prefix: Seq<char>,
    delimiter: Option<Seq<char>>,
) -> Seq<ListEntry> {
    files.filter(|e: ListEntry| is_content(e.key@, prefix, delimiter))
}

/// The view of an optional string.
pub open spec fn view_opt(s: Option<&str>) -> Option<Seq<char>> {
    match s {
        Some(t) => Some(t@),
        None => None,
    }
}

/// The views of strings.
pub open spec fn texts(v: Seq<String>) -> Seq<Seq<char>> {
    Seq::new(v.len(), |i: int| v[i]@)
}

/// Each string sorts before the next.
pub open spec fn climbing(v: Seq<Seq<char>>) -> bool {
    forall|i: int, j: int| 0 <= i < j < v.len() ==> key_lt(#[trigger] v[i], #[trigger] v[j])
}

/// A set of common prefixes (subdirectory collapses).
#[derive(Debug, Clone)]
pub struct CommonPrefixSet {
    prefixes: Vec<String>,
}

impl View for CommonPrefixSet {
    type V = Set<Seq<char>>;

    closed spec fn view(&self) -> Set<Seq<char>> {
        Set::new(|p: Seq<char>| texts(self.prefixes@).contains(p))
    }
}

impl Default for CommonPrefixSet {
    /// The empty set.
    fn default() -> (r: Self)
        ensures
            r.wf(),
            r@ == Set::<Seq<char>>::empty(),
    {
        let r = CommonPrefixSet { prefixes: Vec::new() };
        assert(r@ =~= Set::<Seq<char>>::empty());
        r
    }
}

impl CommonPrefixSet {
    /// The prefixes are kept in ascending order, each once.
    pub closed spec fn wf(&self) -> bool {
        climbing(texts(self.prefixes@))
    }

    /// Add a prefix.
    pub fn insert(&mut self, prefix: String)
        requires
            old(self).wf(),
        ensures
            final(self).wf(),
            final(self)@ == old(self)@.insert(prefix@),
    {
        let ghost before = texts(self.prefixes@);
        let mut i: usize = 0;
        while i < self.prefixes.len() && key_less(self.prefixes[i].as_str(), prefix.as_str())
            invariant
                *self == *old(self),
                i <= self.prefixes.len(),
                before == texts(self.prefixes@),
                forall|k: int| 0 <= k < i ==> key_lt(#[trigger] before[k], prefix@),
            decreases self.prefixes.len() - i,
        {
            i += 1;
        }
        if i < self.prefixes.len() && same_text(self.prefixes[i].as_str(), prefix.as_str()) {
            proof {
                assert(before[i as int] == prefix@);
                assert(self@ =~= old(self)@.insert(prefix@));
            }
            return;
        }
        let ghost p = prefix@;
        proof {
            if i < self.prefixes.len() {
                lemma_key_lt_total(before[i as int], p);
                assert(key_lt(p, before[i as int]));
            }
        }
        self.prefixes.insert(i, prefix);
        proof {
            let after = texts(self.prefixes@);
            assert(after =~= before.insert(i as int, p));
            assert forall|j: int| i <= j < before.len() implies key_lt(p, #[trigger] before[j]) by {
                if j > i {
                    lemma_key_lt_transitive(p, before[i as int], before[j]);
                }
            }
            assert forall|a: int, b: int| 0 <= a < b < after.len() implies key_lt(
                #[trigger] after[a],
                #[trigger] after[b],
            ) by {
                let x = if a < i {
                    before[a]
                } else if a == i {
                    p
                } else {
                    before[a - 1]
                };
                let y = if b < i {
                    before[b]
                } else if b == i {
                    p
                } else {
                    before[b - 1]
                };
                assert(after[a] == x && after[b] == y);
            }
            assert forall|q: Seq<char>| after.contains(q) <==> before.contains(q) || q == p by {
                if after.contains(q) {
                    let k = choose|k: int| 0 <= k < after.len() && after[k] == q;
                    if k < i {
                        assert(before[k] == q);
                    } else if k > i {
                        assert(before[k - 1] == q);
                    }
                }
                if before.contains(q) {
                    let k = choose|k: int| 0 <= k < before.len() && before[k] == q;
                    if k < i {
                        assert(after[k] == q);
                    } else {
                        assert(after[k + 1] == q);
                    }
                }
                assert(after[i as int] == p);
            }
            assert(self@ =~= old(self)@.insert(p));
        }
    }

    /// The prefixes in ascending order.
    pub fn into_vec(self) -> (v: Vec<String>)
        requires
            self.wf(),
        ensures
            climbing(texts(v@)),
            forall|p: Seq<char>| #[trigger] texts(v@).contains(p) <==> self@.contains(p),
    {
        self.prefixes
    }
}

/// The first position from `from` on at which `pattern` stands in `s`.
fn find_chars(s: &Vec<char>, pattern: &Vec<char>, from: usize) -> (r: Option<usize>)
    requires
        from <= s.len(),
    ensures
        r matches Some(i) ==> find_from(s@, pattern@, from as int) == Some(i as int) && from <= i
            && i + pattern.len() <= s.len(),
        r is None ==> find_from(s@, pattern@, from as int) is None,
{
    let mut i: usize = from;
    while pattern.len() <= s.len() - i
        invariant
            from <= i <= s.len(),
            find_from(s@, pattern@, from as int) == find_from(s@, pattern@, i as int),
        decreases s.len() - i,
    {
        let mut k: usize = 0;
        while k < pattern.len() && s[i + k] == pattern[k]
            invariant
                i + pattern.len() <= s.len(),
                k <= pattern.len(),
                forall|j: int| 0 <= j < k ==> s@[i + j] == pattern@[j],
            decreases pattern.len() - k,
        {
            k += 1;
        }
        if k == pattern.len() {
            assert(s@.subrange(i as int, i + pattern.len()) =~= pattern@);
            return Some(i);
        }
        assert(s@.subrange(i as int, i + pattern.len())[k as int] != pattern@[k as int]);
        if i == s.len() {
            return None;
        }
        i += 1;
    }
    None
}

/// `key` up to and with the first `delimiter` after `prefix`.
fn group_text(key: &str, prefix: &str, delimiter: &str) -> (r: Option<String>)
    requires
        prefix@.is_prefix_of(key@),
    ensures
        r is Some <==> group_of(key@, prefix@, delimiter@) is Some,
        r matches Some(p) ==> group_of(key@, prefix@, delimiter@) == Some(p@),
{
    let chars = to_chars(key);
    let pattern = to_chars(delimiter);
    match find_chars(&chars, &pattern, prefix.unicode_len()) {
        Some(i) => {
            let head = key.substring_char(0, i + pattern.len());
            assert(head@ =~= key@.take(i + delimiter@.len()));
            Some(head.to_string())
        },
        None => None,
    }
}

/// Given a flat list of object keys and a delimiter, compute which keys become `Contents`
/// and which collapse into `CommonPrefixes`.
///
/// A key `a/b/c.txt` with delimiter `/` and prefix `a/` collapses to the single
/// `CommonPrefix` `a/b/`, not to one per nesting level. An empty delimiter groups nothing.
pub fn list_to_contents(entries: &[ListEntry], prefix: &str, delimiter: Option<&str>) -> (r: (
    Vec<ListEntry>,
    CommonPrefixSet,
))
    ensures
        r.0@ == contents_of(entries@, prefix@, view_opt(delimiter)),
        r.1.wf(),
        forall|p: Seq<char>| #[trigger]
            r.1@.contains(p) <==> groups_file(
                entries@,
                entries@.len() as int,
                prefix@,
                view_opt(delimiter),
                p,
            ),
{
    let ghost d = view_opt(delimiter);
    let mut contents: Vec<ListEntry> = Vec::new();
    let mut common = CommonPrefixSet::default();
    proof {
        reveal(Seq::filter);
        assert(entries@.take(0) =~= Seq::<ListEntry>::empty());
    }
    let mut i: usize = 0;
    while i < entries.len()
        invariant
            i <= entries.len(),
            d == view_opt(delimiter),
            contents@ == contents_of(entries@.take(i as int), prefix@, d),
            common.wf(),
            forall|p: Seq<char>| #[trigger]
                common@.contains(p) <==> groups_file(entries@, i as int, prefix@, d, p),
        decreases entries.len() - i,
    {
        let ghost before = common@;
        let entry = &entries[i];
        let matching = starts_with(entry.key.as_str(), prefix);
        let group = match delimiter {
            Some(delim) => if matching && !delim.is_empty() {
                group_text(entry.key.as_str(), prefix, delim)
            } else {
                None
            },
            None => None,
        };
        proof {
            reveal(Seq::filter);
            let front = entries@.take(i + 1);
            assert(front.drop_last() =~= entries@.take(i as int));
            assert(front.last() == *entry);
        }
        if matching {
            match group {
                Some(p) => {
                    common.insert(p);
                },
                None => {
                    contents.push(copy_entry(entry));
                },
            }
        }
        proof {
            let n = i as int;
            assert forall|p: Seq<char>| #[trigger] common@.contains(p) <==> groups_file(
                entries@,
                n + 1,
                prefix@,
                d,
                p,
            ) by {
                if groups_file(entries@, n, prefix@, d, p) {
                    let k = choose|k: int|
                        0 <= k < n && prefix@.is_prefix_of((#[trigger] entries@[k]).key@)
                            && collapsed(entries@[k].key@, prefix@, d) == Some(p);
                    assert(prefix@.is_prefix_of(entries@[k].key@));
                }
                assert(before.contains(p) <==> groups_file(entries@, n, prefix@, d, p));
                assert(entries@[n] == *entry);
                if groups_file(entries@, n + 1, prefix@, d, p) {
                    let k = choose|k: int|
                        0 <= k < n + 1 && prefix@.is_prefix_of((#[trigger] entries@[k]).key@)
                            && collapsed(entries@[k].key@, prefix@, d) == Some(p);
                    if k < n {
                        assert(groups_file(entries@, n, prefix@, d, p));
                    }
                }
            }
        }
        i += 1;
    }
    assert(entries@.take(entries@.len() as int) =~= entries@);
    (contents, common)
}

// ---------------------------------------------------------------------------------------
// Pages
// ---------------------------------------------------------------------------------------

/// The result of paginating a listing: the page's Contents and CommonPrefixes (both in
/// strict key order), whether more keys remain, and the raw last key of the page to resume
/// from.
#[derive(Debug)]
pub struct Page {
    /// Contents that fall on this page, sorted by key.
    pub contents: Vec<ListEntry>,
    /// CommonPrefixes that fall on this page, sorted.
    pub common_prefixes: Vec<String>,
    /// Whether more keys exist beyond this page.
    pub is_truncated: bool,
    /// The last key of this page (a Content or a CommonPrefix), used to resume. `Some`
    /// exactly when more keys exist and the page holds at least one.
    pub next_token: Option<String>,
}

/// `key` sorts after the marker, if there is one.
pub open spec fn past(marker: Option<Seq<char>>, key: Seq<char>) -> bool {
    marker matches Some(m) ==> key_lt(m, key)
}

/// The delimiter that directories are grouped by: `/` where keys are not grouped.
pub open spec fn dir_delimiter(delimiter: Option<Seq<char>>) -> Seq<char> {
    match delimiter {
        Some(d) if d.len() > 0 => d,
        _ => seq!['/'],
    }
}

/// The CommonPrefix that holds every key below a directory: what their common beginning
/// collapses into, or all of that beginning if the delimiter does not occur in it.
pub open spec fn dir_group(
    dir: Seq<char>,
    prefix: Seq<char>,
    delimiter: Option<Seq<char>>,
) -> Seq<char> {
    match group_of(dir.push('/'), prefix, dir_delimiter(delimiter)) {
        Some(p) => p,
        None => dir.push('/'),
    }
}

/// `p` is the CommonPrefix of one of the first `n` directories.
pub open spec fn groups_dir(
    dirs: Seq<Seq<char>>,
    n: int,
    prefix: Seq<char>,
    delimiter: Option<Seq<char>>,
    p: Seq<char>,
) -> bool {
    exists|i: int|
        0 <= i < n && prefix.is_prefix_of(#[trigger] dirs[i]) && dir_group(
            dirs[i],
            prefix,
            delimiter,
        ) == p
}

/// What a listing is made of: the files and directories directly under the prefix's
/// directory, and how to look at them.
pub struct Level {
    pub files: Seq<ListEntry>,
    pub dirs: Seq<Seq<char>>,
    pub prefix: Seq<char>,
    pub delimiter: Option<Seq<char>>,
}

impl Level {
    /// `p` is one of the CommonPrefixes.
    pub open spec fn groups(self, p: Seq<char>) -> bool {
        ||| groups_file(self.files, self.files.len() as int, self.prefix, self.delimiter, p)
        ||| groups_dir(self.dirs, self.dirs.len() as int, self.prefix, self.delimiter, p)
    }

    /// `contents` are the Contents after the marker, in key order.
    #[verifier::opaque]
    pub open spec fn has_contents(
        self,
        marker: Option<Seq<char>>,
        contents: Seq<ListEntry>,
    ) -> bool {
        exists|all: Seq<ListEntry>| #[trigger]
            is_stable_sort(contents_of(self.files, self.prefix, self.delimiter), all) && contents
                == after_marker(all, marker)
    }

    /// `prefixes` are the CommonPrefixes after the marker, in key order, each once.
    #[verifier::opaque]
    pub open spec fn has_prefixes(
        self,
        marker: Option<Seq<char>>,
        prefixes: Seq<Seq<char>>,
    ) -> bool {
        &&& climbing(prefixes)
        &&& forall|p: Seq<char>| #[trigger]
            prefixes.contains(p) <==> self.groups(p) && past(marker, p)
    }

    /// `page` is the page of at most `max_keys` keys after the marker.
    pub open spec fn pages(self, marker: Option<Seq<char>>, max_keys: nat, page: Page) -> bool {
        exists|contents: Seq<ListEntry>, prefixes: Seq<Seq<char>>, keys: Seq<Seq<char>>|
            {
                &&& #[trigger] self.has_contents(marker, contents)
                &&& #[trigger] self.has_prefixes(marker, prefixes)
                &&& #[trigger] in_key_order(contents, prefixes, keys)
                &&& cuts(contents, prefixes, keys, max_keys, page)
            }
    }
}

/// The items whose key sorts after the marker.
pub open spec fn after_marker<T: Keyed>(s: Seq<T>, marker: Option<Seq<char>>) -> Seq<T> {
    s.filter(|e: T| past(marker, e.sort_key()))
}

/// The items whose key sorts up to `last`.
pub open spec fn up_to<T: Keyed>(s: Seq<T>, last: Seq<char>) -> Seq<T> {
    s.filter(|e: T| key_le(e.sort_key(), last))
}

/// The strings that sort up to `last`.
pub open spec fn prefixes_up_to(s: Seq<Seq<char>>, last: Seq<char>) -> Seq<Seq<char>> {
    s.filter(|p: Seq<char>| key_le(p, last))
}

/// The keys of entries.
pub open spec fn keys_of(contents: Seq<ListEntry>) -> Seq<Seq<char>> {
    Seq::new(contents.len(), |i: int| contents[i].key@)
}

/// No string sorts before an earlier one.
pub open spec fn ordered(keys: Seq<Seq<char>>) -> bool {
    forall|i: int, j: int|
        0 <= i < j < keys.len() ==> key_le(#[trigger] keys[i], #[trigger] keys[j])
}

/// `keys` are the keys of the Contents and the CommonPrefixes together, in key order.
#[verifier::opaque]
pub open spec fn in_key_order(
    contents: Seq<ListEntry>,
    prefixes: Seq<Seq<char>>,
    keys: Seq<Seq<char>>,
) -> bool {
    &&& ordered(keys)
    &&& keys.to_multiset() == (keys_of(contents) + prefixes).to_multiset()
}

/// `page` is cut off after the first `max_keys` of `keys`.
pub open spec fn cuts(
    contents: Seq<ListEntry>,
    prefixes: Seq<Seq<char>>,
    keys: Seq<Seq<char>>,
    max_keys: nat,
    page: Page,
) -> bool {
    let shown = keys.take(
        if max_keys < keys.len() {
            max_keys as int
        } else {
            keys.len() as int
        },
    );
    &&& page.contents@ == contents.filter(|e: ListEntry| shown.contains(e.key@))
    &&& texts(page.common_prefixes@) == prefixes.filter(|p: Seq<char>| shown.contains(p))
    &&& page.is_truncated <==> max_keys < keys.len()
    &&& match page.next_token {
        Some(t) => page.is_truncated && shown.len() > 0 && t@ == shown.last(),
        None => !page.is_truncated || shown.len() == 0,
    }
}

/// Filters that agree on the items give the same result.
proof fn lemma_filter_agrees<A>(s: Seq<A>, p: spec_fn(A) -> bool, q: spec_fn(A) -> bool)
    requires
        forall|x: A| #[trigger] s.contains(x) ==> p(x) == q(x),
    ensures
        s.filter(p) == s.filter(q),
    decreases s.len(),
{
    reveal(Seq::filter);
    if s.len() > 0 {
        assert forall|x: A| #[trigger] s.drop_last().contains(x) implies p(x) == q(x) by {
            let i = choose|i: int| 0 <= i < s.drop_last().len() && s.drop_last()[i] == x;
            assert(s[i] == x);
            assert(s.contains(x));
        }
        lemma_filter_agrees(s.drop_last(), p, q);
        assert(s.contains(s.last()));
    }
}

/// A filter that holds of every item keeps them all; one that holds of none drops them all.
proof fn lemma_filter_trivial<A>(s: Seq<A>, p: spec_fn(A) -> bool)
    ensures
        (forall|x: A| #[trigger] s.contains(x) ==> p(x)) ==> s.filter(p) == s,
        (forall|x: A| #[trigger] s.contains(x) ==> !p(x)) ==> s.filter(p) == Seq::<A>::empty(),
    decreases s.len(),
{
    reveal(Seq::filter);
    if s.len() > 0 {
        let front = s.drop_last();
        lemma_filter_trivial(front, p);
        assert(s.contains(s.last()));
        assert forall|x: A| #[trigger] front.contains(x) implies s.contains(x) by {
            let i = choose|i: int| 0 <= i < front.len() && front[i] == x;
            assert(s[i] == x);
        }
        assert(front.push(s.last()) =~= s);
    } else {
        assert(s.filter(p) =~= s);
        assert(s =~= Seq::<A>::empty());
    }
}

/// What a filter keeps.
pub proof fn lemma_filter_members<A>(s: Seq<A>, p: spec_fn(A) -> bool)
    ensures
        forall|x: A| #[trigger] s.filter(p).contains(x) <==> s.contains(x) && p(x),
    decreases s.len(),
{
    reveal(Seq::filter);
    if s.len() > 0 {
        let front = s.drop_last();
        let f = front.filter(p);
        let w = s.filter(p);
        lemma_filter_members(front, p);
        assert forall|x: A| #[trigger] w.contains(x) <==> s.contains(x) && p(x) by {
            if w.contains(x) {
                let k = choose|k: int| 0 <= k < w.len() && w[k] == x;
                if k < f.len() {
                    assert(f.contains(f[k]));
                    let i = choose|i: int| 0 <= i < front.len() && front[i] == x;
                    assert(s[i] == x);
                } else {
                    assert(s[s.len() - 1] == x);
                }
            }
            if s.contains(x) && p(x) {
                let i = choose|i: int| 0 <= i < s.len() && s[i] == x;
                if i < front.len() {
                    assert(front[i] == x);
                    assert(f.contains(x));
                    let k = choose|k: int| 0 <= k < f.len() && f[k] == x;
                    assert(w[k] == x);
                } else {
                    assert(w[w.len() - 1] == x);
                }
            }
        }
    }
}

/// Filtering strings by their text.
proof fn lemma_texts_filter(
    v: Seq<String>,
    p: spec_fn(String) -> bool,
    f: spec_fn(Seq<char>) -> bool,
)
    requires
        forall|s: String| #[trigger] p(s) == f(s@),
    ensures
        texts(v.filter(p)) == texts(v).filter(f),
    decreases v.len(),
{
    reveal(Seq::filter);
    if v.len() > 0 {
        let front = v.drop_last();
        lemma_texts_filter(front, p, f);
        assert(texts(v).drop_last() =~= texts(front));
        assert(texts(v).last() == v.last()@);
        if p(v.last()) {
            assert(texts(front.filter(p).push(v.last())) =~= texts(front.filter(p)).push(
                v.last()@,
            ));
        }
    } else {
        assert(texts(v.filter(p)) =~= texts(v).filter(f));
    }
}

/// Keep the items whose key sorts after the marker.
fn retain_after<T: Keyed>(v: Vec<T>, marker: Option<&str>) -> (r: Vec<T>)
    ensures
        r@ == after_marker(v@, view_opt(marker)),
{
    let ghost m = view_opt(marker);
    match marker {
        None => {
            proof {
                lemma_filter_trivial(v@, |e: T| past(m, e.sort_key()));
            }
            v
        },
        Some(after) => {
            let ghost all = v@;
            let mut rest = reversed(v);
            let mut r: Vec<T> = Vec::new();
            proof {
                reveal(Seq::filter);
            }
            while rest.len() > 0
                invariant
                    m == Some(after@),
                    rest@.len() <= all.len(),
                    rest@ == all.skip(all.len() - rest@.len()).reverse(),
                    r@ == after_marker(all.take(all.len() - rest@.len()), m),
                decreases rest.len(),
            {
                let ghost n = all.len() - rest@.len();
                let ghost tail = all.skip(n);
                match rest.pop() {
                    Some(x) => {
                        proof {
                            reveal(Seq::filter);
                            assert(x == tail.reverse()[tail.len() - 1]);
                            assert(x == all[n]);
                            assert(all.take(n + 1).drop_last() =~= all.take(n));
                            assert(rest@ =~= all.skip(n + 1).reverse());
                        }
                        if key_less(after, x.key_text()) {
                            r.push(x);
                        }
                    },
                    None => {},
                }
            }
            assert(all.take(all.len() as int) =~= all);
            r
        },
    }
}

/// Keep the items whose key sorts up to `last`.
fn retain_up_to<T: Keyed>(v: Vec<T>, last: &str) -> (r: Vec<T>)
    ensures
        r@ == up_to(v@, last@),
{
    let ghost all = v@;
    let mut rest = reversed(v);
    let mut r: Vec<T> = Vec::new();
    proof {
        reveal(Seq::filter);
    }
    while rest.len() > 0
        invariant
            rest@.len() <= all.len(),
            rest@ == all.skip(all.len() - rest@.len()).reverse(),
            r@ == up_to(all.take(all.len() - rest@.len()), last@),
        decreases rest.len(),
    {
        let ghost n = all.len() - rest@.len();
        let ghost tail = all.skip(n);
        match rest.pop() {
            Some(x) => {
                proof {
                    reveal(Seq::filter);
                    assert(x == tail.reverse()[tail.len() - 1]);
                    assert(x == all[n]);
                    assert(all.take(n + 1).drop_last() =~= all.take(n));
                    assert(rest@ =~= all.skip(n + 1).reverse());
                    lemma_key_lt_total(x.sort_key(), last@);
                    if key_le(x.sort_key(), last@) {
                        if key_lt(last@, x.sort_key()) {
                            lemma_key_lt_asymmetric(last@, x.sort_key());
                        }
                    }
                }
                if !key_less(last, x.key_text()) {
                    r.push(x);
                }
            },
            None => {},
        }
    }
    assert(all.take(all.len() as int) =~= all);
    r
}

/// The CommonPrefix that holds every key below a directory.
fn dir_group_text(dir: &str, prefix: &str, delimiter: Option<&str>) -> (r: String)
    requires
        prefix@.is_prefix_of(dir@),
    ensures
        r@ == dir_group(dir@, prefix@, view_opt(delimiter)),
{
    let mut lead = dir.to_string();
    lead.append("/");
    proof {
        reveal_strlit("/");
        assert(lead@ =~= dir@.push('/'));
        assert(prefix@ =~= lead@.subrange(0, prefix@.len() as int)) by {
            assert(prefix@ == dir@.subrange(0, prefix@.len() as int));
        }
    }
    let by = match delimiter {
        Some(d) => if d.is_empty() {
            "/"
        } else {
            d
        },
        None => "/",
    };
    proof {
        assert("/"@ =~= seq!['/']);
        assert(by@ == dir_delimiter(view_opt(delimiter)));
    }
    match group_text(lead.as_str(), prefix, by) {
        Some(p) => p,
        None => lead,
    }
}

/// Add the CommonPrefixes of directories. A directory whose key does not begin with the
/// prefix can never hold a matching key and is ignored.
fn add_dirs(
    common: CommonPrefixSet,
    dirs: &[String],
    prefix: &str,
    delimiter: Option<&str>,
) -> (r: CommonPrefixSet)
    requires
        common.wf(),
    ensures
        r.wf(),
        forall|p: Seq<char>| #[trigger]
            r@.contains(p) <==> common@.contains(p) || groups_dir(
                texts(dirs@),
                dirs@.len() as int,
                prefix@,
                view_opt(delimiter),
                p,
            ),
{
    let ghost names = texts(dirs@);
    let ghost d = view_opt(delimiter);
    let mut r = common;
    let mut i: usize = 0;
    while i < dirs.len()
        invariant
            i <= dirs.len(),
            names == texts(dirs@),
            d == view_opt(delimiter),
            r.wf(),
            forall|p: Seq<char>| #[trigger]
                r@.contains(p) <==> common@.contains(p) || groups_dir(
                    names,
                    i as int,
                    prefix@,
                    d,
                    p,
                ),
        decreases dirs.len() - i,
    {
        let ghost before = r@;
        let dir = dirs[i].as_str();
        if starts_with(dir, prefix) {
            let p = dir_group_text(dir, prefix, delimiter);
            r.insert(p);
        }
        proof {
            let n = i as int;
            assert(names[n] == dir@);
            assert forall|p: Seq<char>| #[trigger] r@.contains(p) <==> common@.contains(p)
                || groups_dir(names, n + 1, prefix@, d, p) by {
                assert(before.contains(p) <==> common@.contains(p) || groups_dir(
                    names,
                    n,
                    prefix@,
                    d,
                    p,
                ));
                if groups_dir(names, n, prefix@, d, p) {
                    let k = choose|k: int|
                        0 <= k < n && prefix@.is_prefix_of(#[trigger] names[k]) && dir_group(
                            names[k],
                            prefix@,
                            d,
                        ) == p;
                    assert(prefix@.is_prefix_of(names[k]));
                }
                if groups_dir(names, n + 1, prefix@, d, p) {
                    let k = choose|k: int|
                        0 <= k < n + 1 && prefix@.is_prefix_of(#[trigger] names[k]) && dir_group(
                            names[k],
                            prefix@,
                            d,
                        ) == p;
                    if k < n {
                        assert(groups_dir(names, n, prefix@, d, p));
                    }
                }
            }
        }
        i += 1;
    }
    r
}

/// The keys of Contents and CommonPrefixes together, in key order.
fn merged_keys(contents: &Vec<ListEntry>, prefixes: &Vec<String>) -> (r: Vec<String>)
    ensures
        in_key_order(contents@, texts(prefixes@), texts(r@)),
{
    proof {
        reveal(in_key_order);
    }
    let mut all: Vec<String> = Vec::new();
    let mut i: usize = 0;
    while i < contents.len()
        invariant
            i <= contents.len(),
            texts(all@) == keys_of(contents@).take(i as int),
        decreases contents.len() - i,
    {
        let ghost before = all@;
        all.push(contents[i].key.clone());
        proof {
            assert(texts(all@) =~= texts(before).push(contents@[i as int].key@));
            assert(texts(all@) =~= keys_of(contents@).take(i + 1));
        }
        i += 1;
    }
    let mut j: usize = 0;
    proof {
        assert(texts(all@) =~= keys_of(contents@) + texts(prefixes@).take(0));
    }
    while j < prefixes.len()
        invariant
            j <= prefixes.len(),
            texts(all@) == keys_of(contents@) + texts(prefixes@).take(j as int),
        decreases prefixes.len() - j,
    {
        let ghost before = all@;
        all.push(prefixes[j].clone());
        proof {
            assert(texts(all@) =~= texts(before).push(prefixes@[j as int]@));
            assert(texts(all@) =~= keys_of(contents@) + texts(prefixes@).take(j + 1));
        }
        j += 1;
    }
    let ghost input = all@;
    assert(texts(input) =~= keys_of(contents@) + texts(prefixes@));
    let r = sort_by_key(all);
    proof {
        lemma_stable_sort_permutes(input, r@);
        lemma_texts_permute(input, r@);
        assert forall|a: int, b: int| 0 <= a < b < r@.len() implies key_le(
            #[trigger] texts(r@)[a],
            #[trigger] texts(r@)[b],
        ) by {
            assert(key_le(r@[a].sort_key(), r@[b].sort_key()));
        }
    }
    r
}

/// The texts of a permutation are a permutation of the texts.
proof fn lemma_texts_permute(a: Seq<String>, b: Seq<String>)
    requires
        a.to_multiset() == b.to_multiset(),
    ensures
        texts(a).to_multiset() == texts(b).to_multiset(),
    decreases a.len(),
{
    broadcast use vstd::seq_lib::group_to_multiset_ensures;

    assert(a.len() == a.to_multiset().len());
    assert(b.len() == b.to_multiset().len());
    if a.len() > 0 {
        let x = a.last();
        let front = a.drop_last();
        assert(a =~= front.push(x));
        assert(a.contains(x));
        assert(b.to_multiset().count(x) > 0);
        let i = choose|i: int| 0 <= i < b.len() && b[i] == x;
        let rest = b.remove(i);
        assert(rest.to_multiset() =~= b.to_multiset().remove(x));
        assert(front.to_multiset() =~= a.to_multiset().remove(x));
        lemma_texts_permute(front, rest);
        assert(texts(a) =~= texts(front).push(x@));
        assert(texts(rest) =~= texts(b).remove(i));
        assert(texts(b)[i] == x@);
        assert(texts(b).contains(x@));
        assert(texts(rest).to_multiset() =~= texts(b).to_multiset().remove(x@));
        assert(texts(b).to_multiset() =~= texts(rest).to_multiset().insert(x@));
    } else {
        assert(texts(a) =~= texts(b));
    }
}

/// Among the keys of a listing, those up to the `n`-th are the first `n`.
proof fn lemma_shown(keys: Seq<Seq<char>>, n: int, key: Seq<char>)
    requires
        ordered(keys),
        0 < n <= keys.len(),
        keys.contains(key),
    ensures
        keys.take(n).contains(key) <==> key_le(key, keys[n - 1]),
{
    let shown = keys.take(n);
    let last = keys[n - 1];
    if shown.contains(key) {
        let i = choose|i: int| 0 <= i < shown.len() && shown[i] == key;
        assert(keys[i] == key);
        if i < n - 1 {
            assert(key_le(keys[i], keys[n - 1]));
        }
    }
    if key_le(key, last) {
        let i = choose|i: int| 0 <= i < keys.len() && keys[i] == key;
        if i < n {
            assert(shown[i] == key);
        } else {
            assert(key_le(keys[n - 1], keys[i]));
            if key != last {
                lemma_key_lt_asymmetric(key, last);
            }
            assert(shown[n - 1] == key);
        }
    }
}

/// Every Content and CommonPrefix has its key among the keys.
proof fn lemma_keys_cover(
    contents: Seq<ListEntry>,
    prefixes: Seq<Seq<char>>,
    keys: Seq<Seq<char>>,
)
    requires
        in_key_order(contents, prefixes, keys),
    ensures
        keys.len() == contents.len() + prefixes.len(),
        forall|e: ListEntry| #[trigger] contents.contains(e) ==> keys.contains(e.key@),
        forall|p: Seq<char>| #[trigger] prefixes.contains(p) ==> keys.contains(p),
        forall|k: Seq<char>| #[trigger]
            keys.contains(k) ==> prefixes.contains(k) || keys_of(contents).contains(k),
{
    reveal(in_key_order);
    broadcast use vstd::seq_lib::group_to_multiset_ensures;

    let all = keys_of(contents) + prefixes;
    assert(keys.len() == keys.to_multiset().len());
    assert(all.len() == all.to_multiset().len());
    assert forall|k: Seq<char>| keys.contains(k) <==> #[trigger] all.contains(k) by {
        assert(keys.contains(k) <==> keys.to_multiset().count(k) > 0);
        assert(all.contains(k) <==> all.to_multiset().count(k) > 0);
    }
    assert forall|e: ListEntry| #[trigger] contents.contains(e) implies keys.contains(e.key@) by {
        let i = choose|i: int| 0 <= i < contents.len() && contents[i] == e;
        assert(all[i] == e.key@);
        assert(all.contains(e.key@));
    }
    assert forall|p: Seq<char>| #[trigger] prefixes.contains(p) implies keys.contains(p) by {
        let i = choose|i: int| 0 <= i < prefixes.len() && prefixes[i] == p;
        assert(all[i + contents.len()] == p);
        assert(all.contains(p));
    }
    assert forall|k: Seq<char>| #[trigger] keys.contains(k) implies prefixes.contains(k)
        || keys_of(contents).contains(k) by {
        assert(all.contains(k));
        let i = choose|i: int| 0 <= i < all.len() && all[i] == k;
        if i < contents.len() {
            assert(keys_of(contents)[i] == k);
        } else {
            assert(prefixes[i - contents.len()] == k);
        }
    }
}

/// Compute one page of a delimited listing from the direct children of the prefix's
/// directory: `files` (file keys under it) and `dirs` (directory keys under it).
///
/// - Contents are the file keys whose remainder after `prefix` contains no delimiter;
///   everything else collapses to a CommonPrefix.
/// - Directories always collapse to the CommonPrefix that would contain their keys, also
///   when they are empty; those whose key does not begin with `prefix` are ignored.
/// - Contents and CommonPrefixes are interleaved in strict key order, and the `marker`
///   filters both: only what sorts strictly after it is listed.
pub fn paginate(
    files: &[ListEntry],
    dirs: &[String],
    prefix: &str,
    delimiter: Option<&str>,
    marker: Option<&str>,
    max_keys: usize,
) -> (page: Page)
    ensures
        (Level {
            files: files@,
            dirs: texts(dirs@),
            prefix: prefix@,
            delimiter: view_opt(delimiter),
        }).pages(view_opt(marker), max_keys as nat, page),
{
    proof {
        reveal(Level::has_contents);
        reveal(Level::has_prefixes);
        reveal(in_key_order);
    }
    let ghost level = Level {
        files: files@,
        dirs: texts(dirs@),
        prefix: prefix@,
        delimiter: view_opt(delimiter),
    };
    let ghost m = view_opt(marker);
    let (listed, grouped) = list_to_contents(files, prefix, delimiter);
    let common = add_dirs(grouped, dirs, prefix, delimiter);
    let ghost whole = common@;
    let sorted_contents = sort_by_key(listed);
    let ghost all = sorted_contents@;
    let contents = retain_after(sorted_contents, marker);
    let all_prefixes = common.into_vec();
    let ghost groups = texts(all_prefixes@);
    let prefixes = retain_after(all_prefixes, marker);
    let ghost kept = texts(prefixes@);
    proof {
        assert(is_stable_sort(contents_of(level.files, level.prefix, level.delimiter), all));
        assert(level.has_contents(m, contents@));
        let after = |p: Seq<char>| past(m, p);
        lemma_texts_filter(all_prefixes@, |e: String| past(m, e.sort_key()), after);
        assert(kept == groups.filter(after));
        lemma_filter_members(groups, after);
        lemma_filter_climbs(groups, after);
        assert(level.has_prefixes(m, kept)) by {
            assert forall|p: Seq<char>| #[trigger] kept.contains(p) <==> level.groups(p) && past(
                m,
                p,
            ) by {
                assert(groups.contains(p) <==> whole.contains(p));
            }
        }
    }
    let keys = merged_keys(&contents, &prefixes);
    let ghost order = texts(keys@);
    let ghost found = contents@;
    proof {
        lemma_keys_cover(found, kept, order);
        assert(in_key_order(found, kept, order));
    }
    let is_truncated = max_keys < keys.len();
    let take: usize = if is_truncated {
        max_keys
    } else {
        keys.len()
    };
    let ghost shown = order.take(take as int);
    let ghost on_page = |e: ListEntry| shown.contains(e.key@);
    let ghost prefix_on_page = |p: Seq<char>| shown.contains(p);
    if take == 0 {
        let page = Page {
            contents: Vec::new(),
            common_prefixes: Vec::new(),
            is_truncated,
            next_token: None,
        };
        proof {
            lemma_filter_trivial(found, on_page);
            lemma_filter_trivial(kept, prefix_on_page);
            assert(texts(page.common_prefixes@) =~= Seq::<Seq<char>>::empty());
            assert(cuts(found, kept, order, max_keys as nat, page));
        }
        return page;
    }
    let last = keys[take - 1].as_str();
    let ghost end = last@;
    assert(order[take - 1] == end);
    let page_contents = retain_up_to(contents, last);
    let page_prefixes = retain_up_to(prefixes, last);
    proof {
        assert forall|k: Seq<char>| order.contains(k) implies (shown.contains(k) <==> key_le(
            k,
            end,
        )) by {
            lemma_shown(order, take as int, k);
        }
        lemma_filter_agrees(found, |e: ListEntry| key_le(e.sort_key(), end), on_page);
        let upto = |p: Seq<char>| key_le(p, end);
        lemma_texts_filter(prefixes@, |e: String| key_le(e.sort_key(), end), upto);
        lemma_filter_agrees(kept, upto, prefix_on_page);
    }
    let next_token = if is_truncated {
        Some(last.to_string())
    } else {
        None
    };
    let page = Page {
        contents: page_contents,
        common_prefixes: page_prefixes,
        is_truncated,
        next_token,
    };
    proof {
        assert(shown.last() == end);
        assert(cuts(found, kept, order, max_keys as nat, page));
    }
    page
}

/// A filter keeps strings in order.
proof fn lemma_filter_climbs(s: Seq<Seq<char>>, p: spec_fn(Seq<char>) -> bool)
    requires
        climbing(s),
    ensures
        climbing(s.filter(p)),
    decreases s.len(),
{
    reveal(Seq::filter);
    if s.len() > 0 {
        let front = s.drop_last();
        assert forall|i: int, j: int| 0 <= i < j < front.len() implies key_lt(
            #[trigger] front[i],
            #[trigger] front[j],
        ) by {
            assert(s[i] == front[i] && s[j] == front[j]);
        }
        lemma_filter_climbs(front, p);
        lemma_filter_members(front, p);
        let f = front.filter(p);
        let w = s.filter(p);
        assert forall|i: int, j: int| 0 <= i < j < w.len() implies key_lt(
            #[trigger] w[i],
            #[trigger] w[j],
        ) by {
            assert(w[i] == f[i]);
            if j < f.len() {
                assert(w[j] == f[j]);
            } else {
                assert(f.contains(f[i]));
                let k = choose|k: int| 0 <= k < front.len() && front[k] == f[i];
                assert(s[k] == f[i]);
                assert(s[s.len() - 1] == w[j]);
            }
        }
    }
}

// ---------------------------------------------------------------------------------------
// Laws of pages
// ---------------------------------------------------------------------------------------

/// Ascending strings are determined by which they are.
pub proof fn lemma_climbing_unique(a: Seq<Seq<char>>, b: Seq<Seq<char>>)
    requires
        climbing(a),
        climbing(b),
        forall|p: Seq<char>| a.contains(p) <==> b.contains(p),
    ensures
        a == b,
    decreases a.len(),
{
    if a.len() == 0 {
        if b.len() > 0 {
            assert(b.contains(b[0]));
        }
        assert(a =~= b);
    } else {
        assert(a.contains(a.last()));
        if b.len() == 0 {
            assert(b.contains(a.last()));
        }
        let x = a.last();
        let y = b.last();
        assert(b.contains(x) && b.contains(y));
        assert(a.contains(y));
        let i = choose|i: int| 0 <= i < b.len() && b[i] == x;
        let j = choose|j: int| 0 <= j < a.len() && a[j] == y;
        if x != y {
            assert(key_lt(b[i], b[b.len() - 1]));
            assert(key_lt(a[j], a[a.len() - 1]));
            lemma_key_lt_asymmetric(x, y);
        }
        let s = a.drop_last();
        let t = b.drop_last();
        assert forall|p: Seq<char>| s.contains(p) <==> t.contains(p) by {
            if s.contains(p) {
                let k = choose|k: int| 0 <= k < s.len() && s[k] == p;
                assert(a[k] == p);
                assert(key_lt(a[k], a[a.len() - 1]));
                lemma_key_lt_irreflexive(x);
                assert(b.contains(p));
                let l = choose|l: int| 0 <= l < b.len() && b[l] == p;
                assert(t[l] == p);
            }
            if t.contains(p) {
                let k = choose|k: int| 0 <= k < t.len() && t[k] == p;
                assert(b[k] == p);
                assert(key_lt(b[k], b[b.len() - 1]));
                lemma_key_lt_irreflexive(x);
                assert(a.contains(p));
                let l = choose|l: int| 0 <= l < a.len() && a[l] == p;
                assert(s[l] == p);
            }
        }
        assert(climbing(s)) by {
            assert forall|i: int, j: int| 0 <= i < j < s.len() implies key_lt(
                #[trigger] s[i],
                #[trigger] s[j],
            ) by {
                assert(s[i] == a[i] && s[j] == a[j]);
            }
        }
        assert(climbing(t)) by {
            assert forall|i: int, j: int| 0 <= i < j < t.len() implies key_lt(
                #[trigger] t[i],
                #[trigger] t[j],
            ) by {
                assert(t[i] == b[i] && t[j] == b[j]);
            }
        }
        lemma_climbing_unique(s, t);
        assert(a =~= s.push(x));
        assert(b =~= t.push(y));
    }
}

/// A filter of one more item.
proof fn lemma_filter_last<A>(s: Seq<A>, p: spec_fn(A) -> bool)
    requires
        s.len() > 0,
    ensures
        s.filter(p) == if p(s.last()) {
            s.drop_last().filter(p).push(s.last())
        } else {
            s.drop_last().filter(p)
        },
{
    reveal(Seq::filter);
}

/// `whole` is `head` followed by `tail`.
pub open spec fn splits<A>(whole: Seq<A>, head: Seq<A>, tail: Seq<A>) -> bool {
    &&& head.len() <= whole.len()
    &&& head == whole.take(head.len() as int)
    &&& tail == whole.skip(head.len() as int)
}

/// A sequence that is split is its two parts together.
proof fn lemma_splits_concat<A>(whole: Seq<A>, head: Seq<A>, tail: Seq<A>)
    requires
        splits(whole, head, tail),
    ensures
        whole == head + tail,
{
    assert(whole =~= head + tail);
}

/// Cutting a sequence that reaches no further than `t` at `t`.
proof fn lemma_cut_beyond<T: Keyed>(s: Seq<T>, marker: Option<Seq<char>>, t: Seq<char>)
    requires
        forall|e: T| #[trigger] s.contains(e) ==> key_le(e.sort_key(), t),
    ensures
        splits(after_marker(s, marker), up_to(after_marker(s, marker), t), after_marker(s, Some(t))),
{
    let keep = |e: T| past(marker, e.sort_key());
    let low = |e: T| key_le(e.sort_key(), t);
    let high = |e: T| past(Some(t), e.sort_key());
    assert forall|e: T| #[trigger] s.contains(e) implies !high(e) by {
        if key_lt(t, e.sort_key()) {
            lemma_key_lt_asymmetric(t, e.sort_key());
        }
    }
    lemma_filter_trivial(s, high);
    let kept = after_marker(s, marker);
    lemma_filter_members(s, keep);
    assert forall|e: T| #[trigger] kept.contains(e) implies low(e) by {
        assert(s.contains(e));
    }
    lemma_filter_trivial(kept, low);
    assert(kept.take(kept.len() as int) =~= kept);
    assert(kept.skip(kept.len() as int) =~= Seq::<T>::empty());
}

/// Cutting at `t` a sequence with one more item after `t`.
proof fn lemma_cut_push<T: Keyed>(
    front: Seq<T>,
    x: T,
    marker: Option<Seq<char>>,
    t: Seq<char>,
)
    requires
        past(marker, x.sort_key()),
        key_lt(t, x.sort_key()),
        !key_le(x.sort_key(), t),
        splits(
            after_marker(front, marker),
            up_to(after_marker(front, marker), t),
            after_marker(front, Some(t)),
        ),
    ensures
        splits(
            after_marker(front.push(x), marker),
            up_to(after_marker(front.push(x), marker), t),
            after_marker(front.push(x), Some(t)),
        ),
{
    let s = front.push(x);
    assert(s.drop_last() =~= front);
    lemma_filter_last(s, |e: T| past(marker, e.sort_key()));
    lemma_filter_last(s, |e: T| past(Some(t), e.sort_key()));
    let kept = after_marker(front, marker);
    let tail = after_marker(front, Some(t));
    assert(kept.push(x).drop_last() =~= kept);
    lemma_filter_last(kept.push(x), |e: T| key_le(e.sort_key(), t));
    let n = up_to(kept, t).len() as int;
    assert(kept.push(x).take(n) =~= kept.take(n));
    assert(kept.push(x).skip(n) =~= kept.skip(n).push(x));
}

/// A sorted sequence reaches no further than its last item.
proof fn lemma_sorted_bounded<T: Keyed>(s: Seq<T>, t: Seq<char>)
    requires
        sorted(s),
        s.len() > 0 ==> key_le(s.last().sort_key(), t),
    ensures
        forall|e: T| #[trigger] s.contains(e) ==> key_le(e.sort_key(), t),
{
    assert forall|e: T| #[trigger] s.contains(e) implies key_le(e.sort_key(), t) by {
        let i = choose|i: int| 0 <= i < s.len() && s[i] == e;
        if i < s.len() - 1 {
            assert(key_le(s[i].sort_key(), s[s.len() - 1].sort_key()));
            lemma_key_le_transitive(e.sort_key(), s.last().sort_key(), t);
        }
    }
}

/// The front of a sorted sequence is sorted.
proof fn lemma_sorted_front<T: Keyed>(s: Seq<T>)
    requires
        sorted(s),
        s.len() > 0,
    ensures
        sorted(s.drop_last()),
{
    let front = s.drop_last();
    assert forall|i: int, j: int| 0 <= i < j < front.len() implies key_le(
        #[trigger] front[i].sort_key(),
        #[trigger] front[j].sort_key(),
    ) by {
        assert(s[i] == front[i] && s[j] == front[j]);
    }
}

/// Cutting a sorted sequence at `t`.
proof fn lemma_cut_at<T: Keyed>(s: Seq<T>, marker: Option<Seq<char>>, t: Seq<char>)
    requires
        sorted(s),
        past(marker, t),
    ensures
        splits(after_marker(s, marker), up_to(after_marker(s, marker), t), after_marker(s, Some(t))),
    decreases s.len(),
{
    let beyond = s.len() > 0 && key_lt(t, s.last().sort_key());
    if beyond {
        let front = s.drop_last();
        let x = s.last();
        assert(front.push(x) =~= s);
        assert(sorted(front)) by {
            lemma_sorted_front(s);
        }
        assert(past(marker, x.sort_key()) && !key_le(x.sort_key(), t)) by {
            if let Some(m) = marker {
                lemma_key_lt_transitive(m, t, x.sort_key());
            }
            lemma_key_lt_asymmetric(t, x.sort_key());
        }
        lemma_cut_at(front, marker, t);
        lemma_cut_push(front, x, marker, t);
    } else {
        assert(s.len() > 0 ==> key_le(s.last().sort_key(), t)) by {
            lemma_key_lt_total(t, s.last().sort_key());
        }
        lemma_sorted_bounded(s, t);
        lemma_cut_beyond(s, marker, t);
    }
}

/// Strings up to `t` and strings after it strictly ascend together.
proof fn lemma_concat_climbs(head: Seq<Seq<char>>, t: Seq<char>, tail: Seq<Seq<char>>)
    requires
        climbing(head),
        climbing(tail),
        forall|i: int| 0 <= i < head.len() ==> key_le(#[trigger] head[i], t),
        forall|i: int| 0 <= i < tail.len() ==> key_lt(t, #[trigger] tail[i]),
    ensures
        climbing(head + tail),
{
    let both = head + tail;
    let n = head.len() as int;
    assert forall|i: int, j: int| 0 <= i < j < both.len() implies key_lt(
        #[trigger] both[i],
        #[trigger] both[j],
    ) by {
        if j < n {
            assert(both[i] == head[i] && both[j] == head[j]);
        } else if i < n {
            assert(both[i] == head[i] && both[j] == tail[j - n]);
            if head[i] != t {
                lemma_key_lt_transitive(head[i], t, tail[j - n]);
            }
        } else {
            assert(both[i] == tail[i - n] && both[j] == tail[j - n]);
        }
    }
}

/// What two sequences hold together.
proof fn lemma_concat_members(a: Seq<Seq<char>>, b: Seq<Seq<char>>, x: Seq<char>)
    ensures
        (a + b).contains(x) <==> a.contains(x) || b.contains(x),
{
    let both = a + b;
    if a.contains(x) {
        let i = choose|i: int| 0 <= i < a.len() && a[i] == x;
        assert(both[i] == x);
    }
    if b.contains(x) {
        let i = choose|i: int| 0 <= i < b.len() && b[i] == x;
        assert(both[i + a.len()] == x);
    }
    if both.contains(x) {
        let i = choose|i: int| 0 <= i < both.len() && both[i] == x;
        if i < a.len() {
            assert(a[i] == x);
        } else {
            assert(b[i - a.len()] == x);
        }
    }
}

/// Strings that strictly ascend are those up to `t` and then those after it.
proof fn lemma_cut_climbing(
    p: Seq<Seq<char>>,
    t: Seq<char>,
    head: Seq<Seq<char>>,
    rest: Seq<Seq<char>>,
)
    requires
        climbing(p),
        climbing(head),
        climbing(rest),
        forall|x: Seq<char>| #[trigger] head.contains(x) <==> p.contains(x) && key_le(x, t),
        forall|x: Seq<char>| #[trigger] rest.contains(x) <==> p.contains(x) && key_lt(t, x),
    ensures
        p == head + rest,
{
    let both = head + rest;
    assert(climbing(both)) by {
        assert forall|i: int| 0 <= i < head.len() implies key_le(#[trigger] head[i], t) by {
            assert(head.contains(head[i]));
        }
        assert forall|i: int| 0 <= i < rest.len() implies key_lt(t, #[trigger] rest[i]) by {
            assert(rest.contains(rest[i]));
        }
        lemma_concat_climbs(head, t, rest);
    }
    assert forall|x: Seq<char>| both.contains(x) <==> p.contains(x) by {
        lemma_concat_members(head, rest, x);
        lemma_key_lt_total(x, t);
        assert(head.contains(x) <==> p.contains(x) && key_le(x, t));
        assert(rest.contains(x) <==> p.contains(x) && key_lt(t, x));
    }
    lemma_climbing_unique(both, p);
}

/// A concatenation splits into its parts.
proof fn lemma_concat_splits<A>(head: Seq<A>, tail: Seq<A>)
    ensures
        splits(head + tail, head, tail),
{
    assert((head + tail).take(head.len() as int) =~= head);
    assert((head + tail).skip(head.len() as int) =~= tail);
}

/// Cutting the CommonPrefixes at `t`.
proof fn lemma_cut_prefixes(
    level: Level,
    marker: Option<Seq<char>>,
    p: Seq<Seq<char>>,
    t: Seq<char>,
    rest: Seq<Seq<char>>,
)
    requires
        level.has_prefixes(marker, p),
        past(marker, t),
        level.has_prefixes(Some(t), rest),
    ensures
        splits(p, prefixes_up_to(p, t), rest),
{
    assert forall|x: Seq<char>| #[trigger] rest.contains(x) <==> p.contains(x) && key_lt(t, x) by {
        assert(rest.contains(x) <==> level.groups(x) && key_lt(t, x)) by {
            reveal(Level::has_prefixes);
        }
        assert(p.contains(x) <==> level.groups(x) && past(marker, x)) by {
            reveal(Level::has_prefixes);
        }
        if let Some(m) = marker {
            if key_lt(t, x) {
                lemma_key_lt_transitive(m, t, x);
            }
        }
    }
    assert(climbing(p) && climbing(rest)) by {
        reveal(Level::has_prefixes);
    }
    let head = prefixes_up_to(p, t);
    lemma_filter_climbs(p, |x: Seq<char>| key_le(x, t));
    assert forall|x: Seq<char>| #[trigger] head.contains(x) <==> p.contains(x) && key_le(x, t) by {
        lemma_filter_members(p, |x: Seq<char>| key_le(x, t));
    }
    lemma_cut_climbing(p, t, head, rest);
    lemma_concat_splits(head, rest);
}

/// Cutting the Contents at `t`.
proof fn lemma_contents_cut(
    level: Level,
    marker: Option<Seq<char>>,
    c: Seq<ListEntry>,
    t: Seq<char>,
    rest: Seq<ListEntry>,
)
    requires
        level.has_contents(marker, c),
        past(marker, t),
        level.has_contents(Some(t), rest),
    ensures
        splits(c, up_to(c, t), rest),
{
    reveal(Level::has_contents);
    let input = contents_of(level.files, level.prefix, level.delimiter);
    let all = choose|all: Seq<ListEntry>| #[trigger]
        is_stable_sort(input, all) && c == after_marker(all, marker);
    let all_r = choose|all: Seq<ListEntry>| #[trigger]
        is_stable_sort(input, all) && rest == after_marker(all, Some(t));
    lemma_stable_sort_unique(input, all, all_r);
    lemma_cut_at(all, marker, t);
}

/// A page that is not truncated shows everything after the marker.
proof fn lemma_whole_page(
    contents: Seq<ListEntry>,
    prefixes: Seq<Seq<char>>,
    keys: Seq<Seq<char>>,
    max_keys: nat,
    page: Page,
)
    requires
        in_key_order(contents, prefixes, keys),
        cuts(contents, prefixes, keys, max_keys, page),
        !page.is_truncated,
    ensures
        page.contents@ == contents,
        texts(page.common_prefixes@) == prefixes,
{
    lemma_keys_cover(contents, prefixes, keys);
    assert(keys.take(keys.len() as int) =~= keys);
    lemma_filter_trivial(contents, |e: ListEntry| keys.contains(e.key@));
    lemma_filter_trivial(prefixes, |p: Seq<char>| keys.contains(p));
}

/// A truncated page shows what sorts up to its token, which sorts after the marker.
proof fn lemma_cut_page(
    level: Level,
    marker: Option<Seq<char>>,
    contents: Seq<ListEntry>,
    prefixes: Seq<Seq<char>>,
    keys: Seq<Seq<char>>,
    max_keys: nat,
    page: Page,
    token: Seq<char>,
)
    requires
        level.has_contents(marker, contents),
        level.has_prefixes(marker, prefixes),
        in_key_order(contents, prefixes, keys),
        cuts(contents, prefixes, keys, max_keys, page),
        page.next_token matches Some(t) && t@ == token,
    ensures
        page.contents@ == up_to(contents, token),
        texts(page.common_prefixes@) == prefixes_up_to(prefixes, token),
        past(marker, token),
        keys_of(page.contents@).contains(token) || texts(page.common_prefixes@).contains(token),
{
    reveal(Level::has_contents);
    reveal(Level::has_prefixes);
    reveal(in_key_order);
    lemma_keys_cover(contents, prefixes, keys);
    let n = max_keys as int;
    let shown = keys.take(n);
    assert(token == keys[n - 1]);
    assert(keys.contains(token));
    assert forall|k: Seq<char>| keys.contains(k) implies (shown.contains(k) <==> key_le(
        k,
        token,
    )) by {
        lemma_shown(keys, n, k);
    }
    let on_page = |e: ListEntry| shown.contains(e.key@);
    let prefix_on_page = |p: Seq<char>| shown.contains(p);
    lemma_filter_agrees(contents, |e: ListEntry| key_le(e.sort_key(), token), on_page);
    lemma_filter_agrees(prefixes, |p: Seq<char>| key_le(p, token), prefix_on_page);
    lemma_filter_members(contents, on_page);
    lemma_filter_members(prefixes, prefix_on_page);
    assert(shown[n - 1] == token);
    if prefixes.contains(token) {
        assert(texts(page.common_prefixes@).contains(token));
    } else {
        assert(keys_of(contents).contains(token));
        let i = choose|i: int| 0 <= i < contents.len() && keys_of(contents)[i] == token;
        let e = contents[i];
        assert(contents.contains(e));
        let all = choose|all: Seq<ListEntry>| #[trigger]
            is_stable_sort(contents_of(level.files, level.prefix, level.delimiter), all) && contents
                == after_marker(all, marker);
        lemma_filter_members(all, |e: ListEntry| past(marker, e.sort_key()));
        assert(page.contents@.contains(e));
        let k = choose|k: int| 0 <= k < page.contents@.len() && page.contents@[k] == e;
        assert(keys_of(page.contents@)[k] == token);
    }
}

/// What a page is cut from: the Contents and the CommonPrefixes after the marker, and the keys
/// of both in key order.
proof fn lemma_page_parts(
    level: Level,
    marker: Option<Seq<char>>,
    max_keys: nat,
    page: Page,
) -> (parts: (Seq<ListEntry>, Seq<Seq<char>>, Seq<Seq<char>>))
    requires
        level.pages(marker, max_keys, page),
    ensures
        level.has_contents(marker, parts.0),
        level.has_prefixes(marker, parts.1),
        in_key_order(parts.0, parts.1, parts.2),
        cuts(parts.0, parts.1, parts.2, max_keys, page),
{
    choose|contents: Seq<ListEntry>, prefixes: Seq<Seq<char>>, keys: Seq<Seq<char>>|
        {
            &&& #[trigger] level.has_contents(marker, contents)
            &&& #[trigger] level.has_prefixes(marker, prefixes)
            &&& #[trigger] in_key_order(contents, prefixes, keys)
            &&& cuts(contents, prefixes, keys, max_keys, page)
        }
}

/// Both Contents and CommonPrefixes of a page come in key order, CommonPrefixes each once,
/// and all of them sort after the marker.
pub proof fn law_page_in_order(
    level: Level,
    marker: Option<Seq<char>>,
    max_keys: nat,
    page: Page,
)
    requires
        level.pages(marker, max_keys, page),
    ensures
        ordered(keys_of(page.contents@)),
        climbing(texts(page.common_prefixes@)),
        forall|i: int|
            0 <= i < page.contents@.len() ==> past(marker, (#[trigger] page.contents@[i]).key@),
        forall|i: int|
            0 <= i < page.common_prefixes@.len() ==> past(
                marker,
                (#[trigger] page.common_prefixes@[i])@,
            ),
{
    reveal(Level::has_contents);
    reveal(Level::has_prefixes);
    let (contents, prefixes, keys) = lemma_page_parts(level, marker, max_keys, page);
    let shown = keys.take(
        if max_keys < keys.len() {
            max_keys as int
        } else {
            keys.len() as int
        },
    );
    let on_page = |e: ListEntry| shown.contains(e.key@);
    let prefix_on_page = |p: Seq<char>| shown.contains(p);
    let keep = |e: ListEntry| past(marker, e.sort_key());
    let all = choose|all: Seq<ListEntry>| #[trigger]
        is_stable_sort(contents_of(level.files, level.prefix, level.delimiter), all) && contents
            == after_marker(all, marker);
    lemma_filter_sorted(all, keep);
    lemma_filter_sorted(contents, on_page);
    lemma_filter_members(all, keep);
    lemma_filter_members(contents, on_page);
    lemma_filter_climbs(prefixes, prefix_on_page);
    lemma_filter_members(prefixes, prefix_on_page);
    let c = page.contents@;
    assert forall|i: int, j: int| 0 <= i < j < keys_of(c).len() implies key_le(
        #[trigger] keys_of(c)[i],
        #[trigger] keys_of(c)[j],
    ) by {
        assert(key_le(c[i].sort_key(), c[j].sort_key()));
    }
    assert forall|i: int| 0 <= i < c.len() implies past(marker, (#[trigger] c[i]).key@) by {
        assert(c.contains(c[i]));
        assert(contents.contains(c[i]));
    }
    let p = texts(page.common_prefixes@);
    assert forall|i: int| 0 <= i < page.common_prefixes@.len() implies past(
        marker,
        (#[trigger] page.common_prefixes@[i])@,
    ) by {
        assert(p[i] == page.common_prefixes@[i]@);
        assert(p.contains(p[i]));
        assert(prefixes.contains(p[i]));
    }
}

/// A filter keeps items in order.
proof fn lemma_filter_sorted<T: Keyed>(s: Seq<T>, p: spec_fn(T) -> bool)
    requires
        sorted(s),
    ensures
        sorted(s.filter(p)),
    decreases s.len(),
{
    reveal(Seq::filter);
    if s.len() > 0 {
        let front = s.drop_last();
        assert forall|i: int, j: int| 0 <= i < j < front.len() implies key_le(
            #[trigger] front[i].sort_key(),
            #[trigger] front[j].sort_key(),
        ) by {
            assert(s[i] == front[i] && s[j] == front[j]);
        }
        lemma_filter_sorted(front, p);
        lemma_filter_members(front, p);
        let f = front.filter(p);
        let w = s.filter(p);
        assert forall|i: int, j: int| 0 <= i < j < w.len() implies key_le(
            #[trigger] w[i].sort_key(),
            #[trigger] w[j].sort_key(),
        ) by {
            assert(w[i] == f[i]);
            if j < f.len() {
                assert(w[j] == f[j]);
            } else {
                assert(f.contains(f[i]));
                let k = choose|k: int| 0 <= k < front.len() && front[k] == f[i];
                assert(s[k] == f[i]);
                assert(s[s.len() - 1] == w[j]);
            }
        }
    }
}

/// Progress: the token of a page is a key on that page and sorts after the marker, so that
/// each page a client resumes from brings it further.
pub proof fn law_token_advances(
    level: Level,
    marker: Option<Seq<char>>,
    max_keys: nat,
    page: Page,
)
    requires
        level.pages(marker, max_keys, page),
    ensures
        page.next_token matches Some(t) ==> past(marker, t@) && (keys_of(
            page.contents@,
        ).contains(t@) || texts(page.common_prefixes@).contains(t@)),
        page.next_token is Some <==> page.is_truncated && max_keys > 0,
{
    let (contents, prefixes, keys) = lemma_page_parts(level, marker, max_keys, page);
    if let Some(t) = page.next_token {
        lemma_cut_page(level, marker, contents, prefixes, keys, max_keys, page, t@);
    }
}

/// Pages tile the listing: what a page shows, followed by all that is listed after its token,
/// is all that is listed after its marker. Nothing is served twice and nothing is lost.
pub proof fn law_delimited_pages_tile(
    level: Level,
    marker: Option<Seq<char>>,
    max_keys: nat,
    page: Page,
    token: Seq<char>,
    n1: nat,
    rest: Page,
    n2: nat,
    whole: Page,
)
    requires
        level.pages(marker, max_keys, page),
        page.next_token matches Some(t) && t@ == token,
        level.pages(Some(token), n1, rest),
        !rest.is_truncated,
        level.pages(marker, n2, whole),
        !whole.is_truncated,
    ensures
        whole.contents@ == page.contents@ + rest.contents@,
        texts(whole.common_prefixes@) == texts(page.common_prefixes@) + texts(
            rest.common_prefixes@,
        ),
{
    let (c, p, k) = lemma_page_parts(level, marker, max_keys, page);
    let (cr, pr, kr) = lemma_page_parts(level, Some(token), n1, rest);
    lemma_same_parts(level, marker, n2, whole, c, p, k);
    lemma_cut_page(level, marker, c, p, k, max_keys, page, token);
    lemma_whole_page(cr, pr, kr, n1, rest);
    lemma_whole_page(c, p, k, n2, whole);
    lemma_contents_cut(level, marker, c, token, cr);
    lemma_cut_prefixes(level, marker, p, token, pr);
    lemma_splits_concat(whole.contents@, page.contents@, rest.contents@);
    lemma_splits_concat(
        texts(whole.common_prefixes@),
        texts(page.common_prefixes@),
        texts(rest.common_prefixes@),
    );
}

/// Ordered strings are determined by which they are and how often.
proof fn lemma_ordered_unique(a: Seq<Seq<char>>, b: Seq<Seq<char>>)
    requires
        ordered(a),
        ordered(b),
        a.to_multiset() == b.to_multiset(),
    ensures
        a == b,
    decreases a.len(),
{
    broadcast use vstd::seq_lib::group_to_multiset_ensures;

    assert(a.len() == a.to_multiset().len());
    assert(b.len() == b.to_multiset().len());
    if a.len() == 0 {
        assert(a =~= b);
    } else {
        let x = a.last();
        let y = b.last();
        assert(a.contains(x) && b.contains(y));
        assert(a.to_multiset().count(x) > 0 && b.to_multiset().count(y) > 0);
        assert(b.contains(x) && a.contains(y));
        let i = choose|i: int| 0 <= i < b.len() && b[i] == x;
        let j = choose|j: int| 0 <= j < a.len() && a[j] == y;
        if x != y {
            assert(key_le(b[i], b[b.len() - 1]));
            assert(key_le(a[j], a[a.len() - 1]));
            lemma_key_lt_asymmetric(x, y);
        }
        let s = a.drop_last();
        let t = b.drop_last();
        assert(a =~= s.push(x));
        assert(b =~= t.push(x));
        assert(s.to_multiset() =~= a.to_multiset().remove(x));
        assert(t.to_multiset() =~= b.to_multiset().remove(x));
        assert(ordered(s)) by {
            assert forall|i: int, j: int| 0 <= i < j < s.len() implies key_le(
                #[trigger] s[i],
                #[trigger] s[j],
            ) by {
                assert(s[i] == a[i] && s[j] == a[j]);
            }
        }
        assert(ordered(t)) by {
            assert forall|i: int, j: int| 0 <= i < j < t.len() implies key_le(
                #[trigger] t[i],
                #[trigger] t[j],
            ) by {
                assert(t[i] == b[i] && t[j] == b[j]);
            }
        }
        lemma_ordered_unique(s, t);
    }
}

/// The page of a request is determined: its files, directories, marker and limit leave one
/// page only.
pub proof fn law_delimited_page_determined(
    level: Level,
    marker: Option<Seq<char>>,
    max_keys: nat,
    a: Page,
    b: Page,
)
    requires
        level.pages(marker, max_keys, a),
        level.pages(marker, max_keys, b),
    ensures
        a.contents@ == b.contents@,
        texts(a.common_prefixes@) == texts(b.common_prefixes@),
        a.is_truncated == b.is_truncated,
        match (a.next_token, b.next_token) {
            (Some(s), Some(t)) => s@ == t@,
            (None, None) => true,
            _ => false,
        },
{
    let (c, p, k) = lemma_page_parts(level, marker, max_keys, a);
    lemma_same_parts(level, marker, max_keys, b, c, p, k);
}

/// What stands in a text stands in each text that it begins, at the same first place.
proof fn lemma_find_extends(s: Seq<char>, x: Seq<char>, pattern: Seq<char>, i: int)
    ensures
        find_from(s, pattern, i) matches Some(k) ==> find_from(s + x, pattern, i) == Some(k) && i <= k
            && k + pattern.len() <= s.len(),
    decreases s.len() + 1 - i,
{
    if i >= 0 && i + pattern.len() <= s.len() {
        assert((s + x).subrange(i, i + pattern.len()) =~= s.subrange(i, i + pattern.len()));
        if !occurs_at(s, pattern, i) {
            lemma_find_extends(s, x, pattern, i + 1);
        }
    }
}

/// The CommonPrefix of a directory holds every key below it: each of them begins with it, and
/// if the delimiter occurs in what they all begin with, each of them collapses into it.
pub proof fn law_dir_group_holds_keys(
    dir: Seq<char>,
    prefix: Seq<char>,
    delimiter: Option<Seq<char>>,
    name: Seq<char>,
)
    ensures
        dir_group(dir, prefix, delimiter).is_prefix_of(dir.push('/') + name),
        collapsed(dir.push('/'), prefix, delimiter) is Some ==> collapsed(
            dir.push('/') + name,
            prefix,
            delimiter,
        ) == Some(dir_group(dir, prefix, delimiter)),
{
    let lead = dir.push('/');
    let key = lead + name;
    let p = dir_group(dir, prefix, delimiter);
    let d = dir_delimiter(delimiter);
    lemma_find_extends(lead, name, d, prefix.len() as int);
    if let Some(k) = find_from(lead, d, prefix.len() as int) {
        assert(key.take(k + d.len()) =~= lead.take(k + d.len()));
        assert(lead.take(k + d.len()) =~= key.subrange(0, k + d.len()));
    }
    assert(lead =~= key.subrange(0, lead.len() as int));
}

/// No two entries share a key.
pub open spec fn keys_distinct(s: Seq<ListEntry>) -> bool {
    forall|i: int, j: int|
        0 <= i < j < s.len() ==> (#[trigger] s[i]).key@ != (#[trigger] s[j]).key@
}

impl Level {
    /// Every key is listed once: no two files share a key, and no Content has the name of a
    /// CommonPrefix.
    pub open spec fn lists_once(self) -> bool {
        &&& keys_distinct(self.files)
        &&& forall|i: int|
            0 <= i < self.files.len() && is_content(
                (#[trigger] self.files[i]).key@,
                self.prefix,
                self.delimiter,
            ) ==> !self.groups(self.files[i].key@)
    }
}

/// A filter keeps keys distinct.
proof fn lemma_distinct_filter(s: Seq<ListEntry>, p: spec_fn(ListEntry) -> bool)
    requires
        keys_distinct(s),
    ensures
        keys_distinct(s.filter(p)),
    decreases s.len(),
{
    reveal(Seq::filter);
    if s.len() > 0 {
        let front = s.drop_last();
        assert forall|i: int, j: int| 0 <= i < j < front.len() implies (#[trigger] front[i]).key@
            != (#[trigger] front[j]).key@ by {
            assert(s[i] == front[i] && s[j] == front[j]);
        }
        lemma_distinct_filter(front, p);
        lemma_filter_members(front, p);
        let f = front.filter(p);
        let w = s.filter(p);
        assert forall|i: int, j: int| 0 <= i < j < w.len() implies (#[trigger] w[i]).key@ != (
        #[trigger] w[j]).key@ by {
            assert(w[i] == f[i]);
            if j < f.len() {
                assert(w[j] == f[j]);
            } else {
                assert(f.contains(f[i]));
                let k = choose|k: int| 0 <= k < front.len() && front[k] == f[i];
                assert(s[k] == f[i]);
                assert(s[s.len() - 1] == w[j]);
            }
        }
    }
}

/// Sorting keeps keys distinct.
proof fn lemma_distinct_sorted(input: Seq<ListEntry>, output: Seq<ListEntry>)
    requires
        is_stable_sort(input, output),
        keys_distinct(input),
    ensures
        keys_distinct(output),
{
    lemma_stable_sort_permutes(input, output);
    assert(input.no_duplicates()) by {
        assert forall|i: int, j: int|
            0 <= i < input.len() && 0 <= j < input.len() && i != j implies input[i] != input[j] by {
            if i < j {
                assert(input[i].key@ != input[j].key@);
            } else {
                assert(input[j].key@ != input[i].key@);
            }
        }
    }
    input.lemma_multiset_has_no_duplicates();
    output.lemma_multiset_has_no_duplicates_conv();
    assert forall|i: int, j: int| 0 <= i < j < output.len() implies (#[trigger] output[i]).key@ != (
    #[trigger] output[j]).key@ by {
        if output[i].key@ == output[j].key@ {
            assert(output.contains(output[i]) && output.contains(output[j]));
            assert(input.contains(output[i]) && input.contains(output[j]));
            let a = choose|a: int| 0 <= a < input.len() && input[a] == output[i];
            let b = choose|b: int| 0 <= b < input.len() && input[b] == output[j];
            if a < b {
                assert(input[a].key@ != input[b].key@);
            } else if b < a {
                assert(input[b].key@ != input[a].key@);
            }
        }
    }
}

/// Where every key is listed once, the keys in key order strictly ascend.
proof fn lemma_keys_climb(
    level: Level,
    marker: Option<Seq<char>>,
    contents: Seq<ListEntry>,
    prefixes: Seq<Seq<char>>,
    keys: Seq<Seq<char>>,
)
    requires
        level.lists_once(),
        level.has_contents(marker, contents),
        level.has_prefixes(marker, prefixes),
        in_key_order(contents, prefixes, keys),
    ensures
        climbing(keys),
{
    reveal(Level::has_contents);
    reveal(Level::has_prefixes);
    reveal(in_key_order);
    let input = contents_of(level.files, level.prefix, level.delimiter);
    let wanted = |e: ListEntry| is_content(e.key@, level.prefix, level.delimiter);
    let keep = |e: ListEntry| past(marker, e.sort_key());
    let all = choose|all: Seq<ListEntry>| #[trigger]
        is_stable_sort(input, all) && contents == after_marker(all, marker);
    lemma_distinct_filter(level.files, wanted);
    lemma_filter_members(level.files, wanted);
    lemma_distinct_sorted(input, all);
    lemma_stable_sort_permutes(input, all);
    lemma_distinct_filter(all, keep);
    lemma_filter_members(all, keep);
    let both = keys_of(contents) + prefixes;
    assert(both.no_duplicates()) by {
        assert forall|i: int, j: int| 0 <= i < j < both.len() implies both[i] != both[j] by {
            if j < contents.len() {
                assert(contents[i].key@ != contents[j].key@);
            } else if i < contents.len() {
                let p = prefixes[j - contents.len()];
                assert(prefixes.contains(p));
                let e = contents[i];
                assert(contents.contains(e));
                assert(all.contains(e));
                assert(input.contains(e));
                assert(level.files.contains(e));
                let k = choose|k: int| 0 <= k < level.files.len() && level.files[k] == e;
                assert(is_content(level.files[k].key@, level.prefix, level.delimiter));
            } else {
                let a = i - contents.len();
                let b = j - contents.len();
                assert(key_lt(prefixes[a], prefixes[b]));
                lemma_key_lt_irreflexive(prefixes[a]);
            }
        }
    }
    both.lemma_multiset_has_no_duplicates();
    keys.lemma_multiset_has_no_duplicates_conv();
    assert forall|i: int, j: int| 0 <= i < j < keys.len() implies key_lt(
        #[trigger] keys[i],
        #[trigger] keys[j],
    ) by {
        assert(key_le(keys[i], keys[j]));
    }
}

impl Level {
    /// A Content has the key `key`.
    pub open spec fn holds(self, key: Seq<char>) -> bool {
        exists|i: int|
            0 <= i < self.files.len() && (#[trigger] self.files[i]).key@ == key && is_content(
                key,
                self.prefix,
                self.delimiter,
            )
    }

    /// `key` is that of a Content or a CommonPrefix.
    pub open spec fn lists_key(self, key: Seq<char>) -> bool {
        self.holds(key) || self.groups(key)
    }

    /// `keys` are the keys of the Contents and the CommonPrefixes after the marker, in key order,
    /// each once.
    pub open spec fn has_keys(self, marker: Option<Seq<char>>, keys: Seq<Seq<char>>) -> bool {
        are_keys(|key: Seq<char>| self.lists_key(key), marker, keys)
    }
}

/// Which keys the Contents after the marker have.
proof fn lemma_content_keys(
    level: Level,
    marker: Option<Seq<char>>,
    contents: Seq<ListEntry>,
    key: Seq<char>,
)
    requires
        level.has_contents(marker, contents),
    ensures
        keys_of(contents).contains(key) <==> level.holds(key) && past(marker, key),
{
    reveal(Level::has_contents);
    let input = contents_of(level.files, level.prefix, level.delimiter);
    let all = choose|all: Seq<ListEntry>| #[trigger]
        is_stable_sort(input, all) && contents == after_marker(all, marker);
    lemma_stable_sort_permutes(input, all);
    lemma_filter_members(
        level.files,
        |e: ListEntry| is_content(e.key@, level.prefix, level.delimiter),
    );
    lemma_filter_members(all, |e: ListEntry| past(marker, e.sort_key()));
    if keys_of(contents).contains(key) {
        let i = choose|i: int| 0 <= i < contents.len() && keys_of(contents)[i] == key;
        let e = contents[i];
        assert(contents.contains(e));
        assert(all.contains(e));
        assert(input.contains(e));
        assert(level.files.contains(e));
        let k = choose|k: int| 0 <= k < level.files.len() && level.files[k] == e;
        assert(level.files[k].key@ == key);
    }
    if level.holds(key) && past(marker, key) {
        let k = choose|k: int|
            0 <= k < level.files.len() && (#[trigger] level.files[k]).key@ == key && is_content(
                key,
                level.prefix,
                level.delimiter,
            );
        let e = level.files[k];
        assert(level.files.contains(e));
        assert(input.contains(e));
        assert(all.contains(e));
        assert(contents.contains(e));
        let i = choose|i: int| 0 <= i < contents.len() && contents[i] == e;
        assert(keys_of(contents)[i] == key);
    }
}

/// The keys in key order are those of the level.
proof fn lemma_level_keys(
    level: Level,
    marker: Option<Seq<char>>,
    contents: Seq<ListEntry>,
    prefixes: Seq<Seq<char>>,
    keys: Seq<Seq<char>>,
)
    requires
        level.lists_once(),
        level.has_contents(marker, contents),
        level.has_prefixes(marker, prefixes),
        in_key_order(contents, prefixes, keys),
    ensures
        level.has_keys(marker, keys),
{
    lemma_keys_climb(level, marker, contents, prefixes, keys);
    lemma_keys_cover(contents, prefixes, keys);
    assert forall|key: Seq<char>| #[trigger] keys.contains(key) <==> level.lists_key(key) && past(
        marker,
        key,
    ) by {
        assert(prefixes.contains(key) <==> level.groups(key) && past(marker, key)) by {
            reveal(Level::has_prefixes);
        }
        lemma_content_keys(level, marker, contents, key);
        if keys_of(contents).contains(key) {
            let i = choose|i: int| 0 <= i < contents.len() && keys_of(contents)[i] == key;
            assert(contents.contains(contents[i]));
        }
    }
}

/// `keys` are the strings after the marker that `listed` holds of, in key order, each once.
pub open spec fn are_keys(
    listed: spec_fn(Seq<char>) -> bool,
    marker: Option<Seq<char>>,
    keys: Seq<Seq<char>>,
) -> bool {
    &&& climbing(keys)
    &&& forall|key: Seq<char>| #[trigger] keys.contains(key) <==> listed(key) && past(marker, key)
}

/// The keys after one of the keys are the rest of them.
pub proof fn lemma_keys_after(
    listed: spec_fn(Seq<char>) -> bool,
    marker: Option<Seq<char>>,
    keys: Seq<Seq<char>>,
    n: int,
    rest: Seq<Seq<char>>,
)
    requires
        are_keys(listed, marker, keys),
        0 < n <= keys.len(),
        are_keys(listed, Some(keys[n - 1]), rest),
    ensures
        rest == keys.skip(n),
{
    let t = keys[n - 1];
    let tail = keys.skip(n);
    assert(keys.contains(t));
    assert forall|i: int, j: int| 0 <= i < j < tail.len() implies key_lt(
        #[trigger] tail[i],
        #[trigger] tail[j],
    ) by {
        assert(tail[i] == keys[i + n] && tail[j] == keys[j + n]);
    }
    assert forall|x: Seq<char>| tail.contains(x) <==> rest.contains(x) by {
        if tail.contains(x) {
            let i = choose|i: int| 0 <= i < tail.len() && tail[i] == x;
            assert(keys[i + n] == x);
            assert(key_lt(keys[n - 1], keys[i + n]));
            assert(keys.contains(x));
        }
        if rest.contains(x) {
            if let Some(m) = marker {
                lemma_key_lt_transitive(m, t, x);
            }
            assert(keys.contains(x));
            let i = choose|i: int| 0 <= i < keys.len() && keys[i] == x;
            if i < n {
                if i < n - 1 {
                    assert(key_lt(keys[i], keys[n - 1]));
                    lemma_key_lt_asymmetric(x, t);
                } else {
                    lemma_key_lt_irreflexive(t);
                }
            }
            assert(tail[i - n] == x);
        }
    }
    lemma_climbing_unique(rest, tail);
}

/// The keys after the token of a page are the rest of the keys after its marker.
proof fn lemma_rest_of_keys(
    level: Level,
    marker: Option<Seq<char>>,
    c: Seq<ListEntry>,
    p: Seq<Seq<char>>,
    k: Seq<Seq<char>>,
    n: int,
    cr: Seq<ListEntry>,
    pr: Seq<Seq<char>>,
    kr: Seq<Seq<char>>,
)
    requires
        level.lists_once(),
        level.has_contents(marker, c),
        level.has_prefixes(marker, p),
        in_key_order(c, p, k),
        0 < n <= k.len(),
        level.has_contents(Some(k[n - 1]), cr),
        level.has_prefixes(Some(k[n - 1]), pr),
        in_key_order(cr, pr, kr),
    ensures
        kr == k.skip(n),
{
    lemma_level_keys(level, marker, c, p, k);
    lemma_level_keys(level, Some(k[n - 1]), cr, pr, kr);
    lemma_keys_after(|key: Seq<char>| level.lists_key(key), marker, k, n, kr);
}

/// A page shows the key as that of a Content or a CommonPrefix.
pub open spec fn page_shows(page: Page, key: Seq<char>) -> bool {
    keys_of(page.contents@).contains(key) || texts(page.common_prefixes@).contains(key)
}

/// The first `n` of `keys`, or all of them if there are fewer.
pub open spec fn first_keys(keys: Seq<Seq<char>>, n: nat) -> Seq<Seq<char>> {
    if n < keys.len() {
        keys.take(n as int)
    } else {
        keys
    }
}

/// `page` shows the first `n` of `keys`, each once, is truncated just when there are more, and
/// then resumes after the last that it shows.
pub open spec fn shows_first(page: Page, keys: Seq<Seq<char>>, n: nat) -> bool {
    let shown = first_keys(keys, n);
    &&& forall|key: Seq<char>| #[trigger] page_shows(page, key) <==> shown.contains(key)
    &&& page.contents@.len() + page.common_prefixes@.len() == shown.len()
    &&& page.is_truncated <==> n < keys.len()
    &&& match page.next_token {
        Some(t) => page.is_truncated && shown.len() > 0 && t@ == shown.last(),
        None => !page.is_truncated || shown.len() == 0,
    }
}

/// A page of a level shows the first keys after its marker, each once.
pub proof fn law_page_shows_first_keys(
    level: Level,
    marker: Option<Seq<char>>,
    max_keys: nat,
    page: Page,
) -> (keys: Seq<Seq<char>>)
    requires
        level.lists_once(),
        level.pages(marker, max_keys, page),
    ensures
        level.has_keys(marker, keys),
        shows_first(page, keys, max_keys),
{
    let (c, p, k) = lemma_page_parts(level, marker, max_keys, page);
    lemma_level_keys(level, marker, c, p, k);
    assert(climbing(p)) by {
        reveal(Level::has_prefixes);
    }
    lemma_cut_shows(c, p, k, max_keys, page);
    k
}

/// What a cut shows of keys that strictly ascend.
proof fn lemma_cut_shows(
    c: Seq<ListEntry>,
    p: Seq<Seq<char>>,
    k: Seq<Seq<char>>,
    max_keys: nat,
    page: Page,
)
    requires
        in_key_order(c, p, k),
        climbing(k),
        climbing(p),
        cuts(c, p, k, max_keys, page),
    ensures
        shows_first(page, k, max_keys),
{
    let shown = first_keys(k, max_keys);
    assert(k.take(k.len() as int) =~= k);
    let pick = |e: ListEntry| shown.contains(e.key@);
    let pick_prefix = |q: Seq<char>| shown.contains(q);
    assert(page.contents@ == c.filter(pick));
    assert(texts(page.common_prefixes@) == p.filter(pick_prefix));
    lemma_keys_cover(c, p, k);
    lemma_filter_members(c, pick);
    lemma_filter_members(p, pick_prefix);
    let a = keys_of(page.contents@);
    let b = texts(page.common_prefixes@);
    assert forall|key: Seq<char>| #[trigger] page_shows(page, key) <==> shown.contains(key) by {
        if a.contains(key) {
            let i = choose|i: int| 0 <= i < a.len() && a[i] == key;
            assert(page.contents@.contains(page.contents@[i]));
        }
        if shown.contains(key) {
            let i = choose|i: int| 0 <= i < shown.len() && shown[i] == key;
            assert(k[i] == key);
            assert(k.contains(key));
            if keys_of(c).contains(key) {
                let j = choose|j: int| 0 <= j < c.len() && keys_of(c)[j] == key;
                assert(c.contains(c[j]));
                assert(page.contents@.contains(c[j]));
                let m = choose|m: int|
                    0 <= m < page.contents@.len() && page.contents@[m] == c[j];
                assert(a[m] == key);
            }
        }
    }
    lemma_keys_once(c, p, k);
    lemma_distinct_filter(c, pick);
    lemma_filter_climbs(p, pick_prefix);
    let both = a + b;
    assert(both.no_duplicates()) by {
        assert forall|i: int, j: int| 0 <= i < j < both.len() implies both[i] != both[j] by {
            if j < a.len() {
                assert(page.contents@[i].key@ != page.contents@[j].key@);
            } else if i < a.len() {
                let e = page.contents@[i];
                let q = b[j - a.len()];
                assert(page.contents@.contains(e));
                assert(b.contains(q));
                assert(c.contains(e) && p.contains(q));
            } else {
                assert(key_lt(b[i - a.len()], b[j - a.len()]));
                lemma_key_lt_irreflexive(both[i]);
            }
        }
    }
    assert(shown.no_duplicates()) by {
        assert forall|i: int, j: int| 0 <= i < j < shown.len() implies shown[i] != shown[j] by {
            assert(key_lt(k[i], k[j]));
            lemma_key_lt_irreflexive(k[i]);
        }
    }
    both.unique_seq_to_set();
    shown.unique_seq_to_set();
    assert(both.to_set() =~= shown.to_set()) by {
        assert forall|key: Seq<char>| both.to_set().contains(key) <==> #[trigger] shown.to_set()
            .contains(key) by {
            assert(page_shows(page, key) <==> shown.contains(key));
            if a.contains(key) {
                let i = choose|i: int| 0 <= i < a.len() && a[i] == key;
                assert(both[i] == key);
            }
            if b.contains(key) {
                let i = choose|i: int| 0 <= i < b.len() && b[i] == key;
                assert(both[i + a.len()] == key);
            }
            if both.contains(key) {
                let i = choose|i: int| 0 <= i < both.len() && both[i] == key;
                if i < a.len() {
                    assert(a[i] == key);
                } else {
                    assert(b[i - a.len()] == key);
                }
            }
        }
    }
}

/// Where keys strictly ascend, Contents have distinct keys, which no CommonPrefix has.
proof fn lemma_keys_once(c: Seq<ListEntry>, p: Seq<Seq<char>>, k: Seq<Seq<char>>)
    requires
        in_key_order(c, p, k),
        climbing(k),
    ensures
        keys_distinct(c),
        forall|e: ListEntry, q: Seq<char>| #[trigger]
            c.contains(e) && #[trigger] p.contains(q) ==> e.key@ != q,
{
    reveal(in_key_order);
    let both = keys_of(c) + p;
    assert(k.no_duplicates()) by {
        assert forall|i: int, j: int| 0 <= i < j < k.len() implies k[i] != k[j] by {
            assert(key_lt(k[i], k[j]));
            lemma_key_lt_irreflexive(k[i]);
        }
    }
    k.lemma_multiset_has_no_duplicates();
    both.lemma_multiset_has_no_duplicates_conv();
    assert forall|i: int, j: int| 0 <= i < j < c.len() implies (#[trigger] c[i]).key@ != (
    #[trigger] c[j]).key@ by {
        assert(both[i] != both[j]);
    }
    assert forall|e: ListEntry, q: Seq<char>| #[trigger]
        c.contains(e) && #[trigger] p.contains(q) implies e.key@ != q by {
        let i = choose|i: int| 0 <= i < c.len() && c[i] == e;
        let j = choose|j: int| 0 <= j < p.len() && p[j] == q;
        assert(both[i] != both[c.len() + j]);
    }
}

/// Cutting at `t` and then at a later `u`.
proof fn lemma_up_to_later<T: Keyed>(
    whole: Seq<T>,
    head: Seq<T>,
    tail: Seq<T>,
    t: Seq<char>,
    u: Seq<char>,
)
    requires
        splits(whole, head, tail),
        key_le(t, u),
        forall|e: T| #[trigger] head.contains(e) ==> key_le(e.sort_key(), t),
    ensures
        up_to(whole, u) == head + up_to(tail, u),
{
    let low = |e: T| key_le(e.sort_key(), u);
    assert(whole =~= head + tail);
    Seq::filter_distributes_over_add(head, tail, low);
    assert forall|e: T| #[trigger] head.contains(e) implies low(e) by {
        lemma_key_le_transitive(e.sort_key(), t, u);
    }
    lemma_filter_trivial(head, low);
}

/// A page is cut from the same parts as any other after the same marker.
proof fn lemma_same_parts(
    level: Level,
    marker: Option<Seq<char>>,
    max_keys: nat,
    page: Page,
    c: Seq<ListEntry>,
    p: Seq<Seq<char>>,
    k: Seq<Seq<char>>,
)
    requires
        level.pages(marker, max_keys, page),
        level.has_contents(marker, c),
        level.has_prefixes(marker, p),
        in_key_order(c, p, k),
    ensures
        cuts(c, p, k, max_keys, page),
{
    reveal(Level::has_contents);
    reveal(Level::has_prefixes);
    reveal(in_key_order);
    let (cb, pb, kb) = lemma_page_parts(level, marker, max_keys, page);
    let input = contents_of(level.files, level.prefix, level.delimiter);
    let all = choose|all: Seq<ListEntry>| #[trigger]
        is_stable_sort(input, all) && c == after_marker(all, marker);
    let all_b = choose|all: Seq<ListEntry>| #[trigger]
        is_stable_sort(input, all) && cb == after_marker(all, marker);
    lemma_stable_sort_unique(input, all, all_b);
    lemma_climbing_unique(p, pb);
    lemma_ordered_unique(k, kb);
}

/// The parts of a page and of the page of its token.
proof fn lemma_cut_parts(
    level: Level,
    marker: Option<Seq<char>>,
    c: Seq<ListEntry>,
    p: Seq<Seq<char>>,
    k: Seq<Seq<char>>,
    n1: nat,
    first: Page,
    token: Seq<char>,
    cr: Seq<ListEntry>,
    pr: Seq<Seq<char>>,
    kr: Seq<Seq<char>>,
)
    requires
        level.lists_once(),
        level.has_contents(marker, c),
        level.has_prefixes(marker, p),
        in_key_order(c, p, k),
        cuts(c, p, k, n1, first),
        first.next_token matches Some(t) && t@ == token,
        past(marker, token),
        level.has_contents(Some(token), cr),
        level.has_prefixes(Some(token), pr),
        in_key_order(cr, pr, kr),
    ensures
        splits(c, up_to(c, token), cr),
        splits(p, prefixes_up_to(p, token), pr),
        0 < n1 < k.len(),
        k[n1 as int - 1] == token,
        kr == k.skip(n1 as int),
{
    let n = n1 as int;
    assert(k.take(n).last() == k[n - 1]);
    lemma_rest_of_keys(level, marker, c, p, k, n, cr, pr, kr);
    lemma_contents_cut(level, marker, c, token, cr);
    lemma_cut_prefixes(level, marker, p, token, pr);
}

/// What is cut off at `t` reaches up to `t`.
proof fn lemma_up_to_bounded(c: Seq<ListEntry>, p: Seq<Seq<char>>, t: Seq<char>)
    ensures
        forall|i: int|
            0 <= i < up_to(c, t).len() ==> key_le((#[trigger] up_to(c, t)[i]).key@, t),
        forall|e: ListEntry| #[trigger] up_to(c, t).contains(e) ==> key_le(e.sort_key(), t),
        forall|i: int|
            0 <= i < prefixes_up_to(p, t).len() ==> key_le(
                #[trigger] prefixes_up_to(p, t)[i],
                t,
            ),
{
    let low = |x: Seq<char>| key_le(x, t);
    let head = up_to(c, t);
    let head_p = p.filter(low);
    lemma_filter_members(c, |e: ListEntry| key_le(e.sort_key(), t));
    lemma_filter_members(p, low);
    assert forall|i: int| 0 <= i < head.len() implies key_le((#[trigger] head[i]).key@, t) by {
        assert(head.contains(head[i]));
    }
    assert forall|i: int| 0 <= i < head_p.len() implies key_le(#[trigger] head_p[i], t) by {
        assert(head_p.contains(head_p[i]));
    }
}

/// Cutting strings at `t` and then at a later `u`.
proof fn lemma_prefixes_up_to_later(
    whole: Seq<Seq<char>>,
    head: Seq<Seq<char>>,
    tail: Seq<Seq<char>>,
    t: Seq<char>,
    u: Seq<char>,
)
    requires
        splits(whole, head, tail),
        key_le(t, u),
        forall|i: int| 0 <= i < head.len() ==> key_le(#[trigger] head[i], t),
    ensures
        prefixes_up_to(whole, u) == head + prefixes_up_to(tail, u),
{
    let upto = |x: Seq<char>| key_le(x, u);
    assert(whole =~= head + tail);
    Seq::filter_distributes_over_add(head, tail, upto);
    assert forall|x: Seq<char>| #[trigger] head.contains(x) implies upto(x) by {
        let i = choose|i: int| 0 <= i < head.len() && head[i] == x;
        lemma_key_le_transitive(head[i], t, u);
    }
    lemma_filter_trivial(head, upto);
}

/// The second page of two, when more follows, against the page of both.
#[verifier::spinoff_prover]
proof fn lemma_second_page_cut(
    level: Level,
    marker: Option<Seq<char>>,
    c: Seq<ListEntry>,
    p: Seq<Seq<char>>,
    k: Seq<Seq<char>>,
    n1: nat,
    first: Page,
    token: Seq<char>,
    cr: Seq<ListEntry>,
    pr: Seq<Seq<char>>,
    kr: Seq<Seq<char>>,
    n2: nat,
    second: Page,
    both: Page,
)
    requires
        level.lists_once(),
        n2 > 0,
        level.has_contents(marker, c),
        level.has_prefixes(marker, p),
        in_key_order(c, p, k),
        first.contents@ == up_to(c, token),
        texts(first.common_prefixes@) == prefixes_up_to(p, token),
        level.has_contents(Some(token), cr),
        level.has_prefixes(Some(token), pr),
        in_key_order(cr, pr, kr),
        cuts(cr, pr, kr, n2, second),
        cuts(c, p, k, n1 + n2, both),
        splits(c, up_to(c, token), cr),
        splits(p, prefixes_up_to(p, token), pr),
        0 < n1 < k.len(),
        k[n1 as int - 1] == token,
        kr == k.skip(n1 as int),
        second.is_truncated,
    ensures
        both.contents@ == first.contents@ + second.contents@,
        texts(both.common_prefixes@) == texts(first.common_prefixes@) + texts(
            second.common_prefixes@,
        ),
        both.is_truncated == second.is_truncated,
        match (both.next_token, second.next_token) {
            (Some(s), Some(t)) => s@ == t@,
            (None, None) => true,
            _ => false,
        },
        second.contents@.len() + second.common_prefixes@.len() > 0,
{
    let n = n1 as int;
    let m = n2 as int;
    let u = kr[m - 1];
    assert(u == k[n + m - 1]);
    assert(kr.take(m).last() == u);
    assert(k.take(n + m).last() == u);
    lemma_keys_climb(level, marker, c, p, k);
    assert(key_lt(k[n - 1], k[n + m - 1]));
    lemma_cut_page(level, Some(token), cr, pr, kr, n2, second, u);
    lemma_cut_page(level, marker, c, p, k, n1 + n2, both, u);
    assert(keys_of(second.contents@).len() == second.contents@.len());
    assert(texts(second.common_prefixes@).len() == second.common_prefixes@.len());
    assert(up_to(c, u) == up_to(c, token) + up_to(cr, u)) by {
        lemma_up_to_bounded(c, p, token);
        lemma_up_to_later(c, up_to(c, token), cr, token, u);
    }
    assert(prefixes_up_to(p, u) == prefixes_up_to(p, token) + prefixes_up_to(pr, u)) by {
        lemma_up_to_bounded(c, p, token);
        lemma_prefixes_up_to_later(p, prefixes_up_to(p, token), pr, token, u);
    }
}

/// The second page of two, when nothing follows, against the page of both.
#[verifier::spinoff_prover]
proof fn lemma_second_page_last(
    c: Seq<ListEntry>,
    p: Seq<Seq<char>>,
    k: Seq<Seq<char>>,
    n1: nat,
    head: Seq<ListEntry>,
    head_prefixes: Seq<Seq<char>>,
    cr: Seq<ListEntry>,
    pr: Seq<Seq<char>>,
    kr: Seq<Seq<char>>,
    n2: nat,
    second: Page,
    both: Page,
)
    requires
        in_key_order(c, p, k),
        in_key_order(cr, pr, kr),
        cuts(cr, pr, kr, n2, second),
        cuts(c, p, k, n1 + n2, both),
        splits(c, head, cr),
        splits(p, head_prefixes, pr),
        n1 < k.len(),
        kr == k.skip(n1 as int),
        !second.is_truncated,
    ensures
        both.contents@ == head + second.contents@,
        texts(both.common_prefixes@) == head_prefixes + texts(second.common_prefixes@),
        !both.is_truncated,
        both.next_token is None,
        second.next_token is None,
        second.contents@.len() + second.common_prefixes@.len() > 0,
{
    assert(second.contents@ == cr && texts(second.common_prefixes@) == pr) by {
        lemma_whole_page(cr, pr, kr, n2, second);
    }
    assert(both.contents@ == c && texts(both.common_prefixes@) == p) by {
        lemma_whole_page(c, p, k, n1 + n2, both);
    }
    assert(kr.len() == cr.len() + pr.len()) by {
        lemma_keys_cover(cr, pr, kr);
    }
    assert(texts(second.common_prefixes@).len() == second.common_prefixes@.len());
    lemma_splits_concat(c, head, cr);
    lemma_splits_concat(p, head_prefixes, pr);
}

/// Pages of any two limits tile: a page and the page of its token make up the page of both
/// limits together, with its token and its truncation. The second page is not empty, and lies
/// beyond the token as the first lies up to it, so a client that walks from token to token is
/// served everything once and comes to an end.
pub proof fn law_limited_pages_tile(
    level: Level,
    marker: Option<Seq<char>>,
    n1: nat,
    first: Page,
    token: Seq<char>,
    n2: nat,
    second: Page,
    both: Page,
)
    requires
        level.lists_once(),
        n2 > 0,
        level.pages(marker, n1, first),
        first.next_token matches Some(t) && t@ == token,
        level.pages(Some(token), n2, second),
        level.pages(marker, n1 + n2, both),
    ensures
        both.contents@ == first.contents@ + second.contents@,
        texts(both.common_prefixes@) == texts(first.common_prefixes@) + texts(
            second.common_prefixes@,
        ),
        both.is_truncated == second.is_truncated,
        match (both.next_token, second.next_token) {
            (Some(s), Some(t)) => s@ == t@,
            (None, None) => true,
            _ => false,
        },
        second.contents@.len() + second.common_prefixes@.len() > 0,
        forall|i: int|
            0 <= i < first.contents@.len() ==> key_le((#[trigger] first.contents@[i]).key@, token),
        forall|i: int|
            0 <= i < first.common_prefixes@.len() ==> key_le(
                (#[trigger] first.common_prefixes@[i])@,
                token,
            ),
        forall|i: int|
            0 <= i < second.contents@.len() ==> key_lt(token, (#[trigger] second.contents@[i]).key@),
        forall|i: int|
            0 <= i < second.common_prefixes@.len() ==> key_lt(
                token,
                (#[trigger] second.common_prefixes@[i])@,
            ),
{
    let (c, p, k) = lemma_page_parts(level, marker, n1, first);
    let (cr, pr, kr) = lemma_page_parts(level, Some(token), n2, second);
    lemma_same_parts(level, marker, n1 + n2, both, c, p, k);
    lemma_cut_page(level, marker, c, p, k, n1, first, token);
    lemma_cut_parts(level, marker, c, p, k, n1, first, token, cr, pr, kr);
    if second.is_truncated {
        lemma_second_page_cut(level, marker, c, p, k, n1, first, token, cr, pr, kr, n2, second, both);
    } else {
        lemma_second_page_last(
            c,
            p,
            k,
            n1,
            first.contents@,
            texts(first.common_prefixes@),
            cr,
            pr,
            kr,
            n2,
            second,
            both,
        );
    }
    law_page_in_order(level, Some(token), n2, second);
    lemma_up_to_bounded(c, p, token);
    assert forall|i: int| 0 <= i < first.common_prefixes@.len() implies key_le(
        (#[trigger] first.common_prefixes@[i])@,
        token,
    ) by {
        assert(texts(first.common_prefixes@)[i] == first.common_prefixes@[i]@);
    }
}

/// What finding a pattern comes to.
proof fn lemma_find(s: Seq<char>, pattern: Seq<char>, from: int)
    requires
        0 <= from,
    ensures
        match find_from(s, pattern, from) {
            Some(i) => from <= i && occurs_at(s, pattern, i),
            None => forall|j: int| from <= j ==> !#[trigger] occurs_at(s, pattern, j),
        },
    decreases s.len() + 1 - from,
{
    if from + pattern.len() <= s.len() && !occurs_at(s, pattern, from) {
        lemma_find(s, pattern, from + 1);
    }
}

/// What a key collapses into has the delimiter after the prefix, as no Content has.
proof fn lemma_group_no_content(
    key: Seq<char>,
    prefix: Seq<char>,
    delimiter: Seq<char>,
    group: Seq<char>,
)
    requires
        group_of(key, prefix, delimiter) == Some(group),
    ensures
        find_from(group, delimiter, prefix.len() as int) is Some,
{
    let n = prefix.len() as int;
    lemma_find(key, delimiter, n);
    let at = find_from(key, delimiter, n)->0;
    assert(group.subrange(at, at + delimiter.len()) =~= key.subrange(at, at + delimiter.len()));
    assert(occurs_at(group, delimiter, at));
    lemma_find(group, delimiter, n);
}

/// With a delimiter, files with distinct keys, none of which ends in a slash, are enough for
/// every key to be listed once: a CommonPrefix has the delimiter after the prefix or ends in a
/// slash, and a Content does neither.
pub proof fn law_delimited_lists_once(level: Level)
    requires
        level.delimiter matches Some(d) && d.len() > 0,
        keys_distinct(level.files),
        forall|i: int|
            0 <= i < level.files.len() ==> {
                let key = (#[trigger] level.files[i]).key@;
                key.len() > 0 ==> key.last() != '/'
            },
    ensures
        level.lists_once(),
{
    let d = level.delimiter->0;
    assert forall|i: int|
        0 <= i < level.files.len() && is_content(
            (#[trigger] level.files[i]).key@,
            level.prefix,
            level.delimiter,
        ) implies !level.groups(level.files[i].key@) by {
        let key = level.files[i].key@;
        if groups_file(
            level.files,
            level.files.len() as int,
            level.prefix,
            level.delimiter,
            key,
        ) {
            let j = choose|j: int|
                0 <= j < level.files.len() && level.prefix.is_prefix_of(
                    (#[trigger] level.files[j]).key@,
                ) && collapsed(level.files[j].key@, level.prefix, level.delimiter) == Some(key);
            lemma_group_no_content(level.files[j].key@, level.prefix, d, key);
        }
        if groups_dir(
            level.dirs,
            level.dirs.len() as int,
            level.prefix,
            level.delimiter,
            key,
        ) {
            let j = choose|j: int|
                0 <= j < level.dirs.len() && level.prefix.is_prefix_of(#[trigger] level.dirs[j])
                    && dir_group(level.dirs[j], level.prefix, level.delimiter) == key;
            let lead = level.dirs[j].push('/');
            match group_of(lead, level.prefix, d) {
                Some(group) => lemma_group_no_content(lead, level.prefix, d, group),
                None => assert(key.last() == '/'),
            }
        }
    }
}

// ---------------------------------------------------------------------------------------
// Laws of what a page shows, in plain terms
// ---------------------------------------------------------------------------------------

/// `mark` stands somewhere in `key` after `prefix`.
pub open spec fn is_marked(key: Seq<char>, prefix: Seq<char>, mark: Seq<char>) -> bool {
    exists|a: Seq<char>, b: Seq<char>| key == #[trigger] (prefix + a + mark + b)
}

/// `start` is what `key` begins with up to the first `mark` after `prefix`, and with it.
pub open spec fn is_cut_at(
    key: Seq<char>,
    prefix: Seq<char>,
    mark: Seq<char>,
    start: Seq<char>,
) -> bool {
    exists|a: Seq<char>, b: Seq<char>|
        key == #[trigger] (prefix + a + mark + b) && start == prefix + a + mark && is_shortest(
            key,
            prefix,
            mark,
            a,
        )
}

/// No `mark` after `prefix` stands nearer in `key` than behind `a`.
pub open spec fn is_shortest(
    key: Seq<char>,
    prefix: Seq<char>,
    mark: Seq<char>,
    a: Seq<char>,
) -> bool {
    forall|x: Seq<char>, y: Seq<char>|
        key == #[trigger] (prefix + x + mark + y) ==> a.len() <= x.len()
}

/// Where a mark stands is where it is found.
pub proof fn lemma_marked(key: Seq<char>, prefix: Seq<char>, mark: Seq<char>)
    requires
        prefix.is_prefix_of(key),
    ensures
        group_of(key, prefix, mark) is Some <==> is_marked(key, prefix, mark),
        group_of(key, prefix, mark) matches Some(g) ==> is_cut_at(key, prefix, mark, g),
{
    let n = prefix.len() as int;
    lemma_find(key, mark, n);
    assert forall|a: Seq<char>, b: Seq<char>| key == #[trigger] (prefix + a + mark + b) implies {
        &&& find_from(key, mark, n) is Some
        &&& find_from(key, mark, n)->0 <= n + a.len()
    } by {
        let i = n + a.len();
        assert(key.subrange(i, i + mark.len()) =~= mark);
        assert(occurs_at(key, mark, i));
        lemma_find_least(key, mark, n, i);
    }
    if let Some(i) = find_from(key, mark, n) {
        let a = key.subrange(n, i);
        let b = key.skip(i + mark.len());
        assert(key.subrange(i, i + mark.len()) == mark);
        assert(key.subrange(0, n) == prefix);
        assert(key =~= prefix + a + mark + b) by {
            assert forall|j: int| 0 <= j < key.len() implies key[j] == (prefix + a + mark + b)[j] by {
                if j < n {
                    assert(key.subrange(0, n)[j] == key[j]);
                } else if i <= j && j < i + mark.len() {
                    assert(key.subrange(i, i + mark.len())[j - i] == key[j]);
                }
            }
        }
        let g = key.take(i + mark.len());
        assert(g =~= prefix + a + mark);
        assert(is_shortest(key, prefix, mark, a));
        assert(is_cut_at(key, prefix, mark, g));
    }
}

/// A pattern is found no later than it occurs.
proof fn lemma_find_least(s: Seq<char>, pattern: Seq<char>, from: int, i: int)
    requires
        0 <= from <= i,
        occurs_at(s, pattern, i),
    ensures
        find_from(s, pattern, from) matches Some(k) && from <= k <= i,
    decreases i - from,
{
    if !occurs_at(s, pattern, from) {
        lemma_find_least(s, pattern, from + 1, i);
    }
}

/// Only one beginning is cut at the first mark.
pub proof fn lemma_cut_unique(
    key: Seq<char>,
    prefix: Seq<char>,
    mark: Seq<char>,
    g: Seq<char>,
    h: Seq<char>,
)
    requires
        is_cut_at(key, prefix, mark, g),
        is_cut_at(key, prefix, mark, h),
    ensures
        g == h,
{
    let (a, b) = choose|a: Seq<char>, b: Seq<char>|
        key == #[trigger] (prefix + a + mark + b) && g == prefix + a + mark && is_shortest(
            key,
            prefix,
            mark,
            a,
        );
    let (x, y) = choose|a: Seq<char>, b: Seq<char>|
        key == #[trigger] (prefix + a + mark + b) && h == prefix + a + mark && is_shortest(
            key,
            prefix,
            mark,
            a,
        );
    assert(a.len() <= x.len() && x.len() <= a.len());
    assert(g =~= key.take(g.len() as int));
    assert(h =~= key.take(h.len() as int));
}

/// A filter keeps as many of an item as there are, or none.
pub proof fn lemma_filter_count<A>(s: Seq<A>, p: spec_fn(A) -> bool, x: A)
    ensures
        s.filter(p).to_multiset().count(x) == if p(x) {
            s.to_multiset().count(x)
        } else {
            0
        },
    decreases s.len(),
{
    broadcast use vstd::seq_lib::group_to_multiset_ensures;

    reveal(Seq::filter);
    if s.len() > 0 {
        let front = s.drop_last();
        lemma_filter_count(front, p, x);
        assert(s =~= front.push(s.last()));
    }
}

/// How often an untruncated page shows an entry as a Content.
pub proof fn lemma_whole_contents(
    level: Level,
    marker: Option<Seq<char>>,
    max_keys: nat,
    page: Page,
    e: ListEntry,
)
    requires
        level.pages(marker, max_keys, page),
        !page.is_truncated,
    ensures
        page.contents@.to_multiset().count(e) == if is_content(
            e.key@,
            level.prefix,
            level.delimiter,
        ) && past(marker, e.key@) {
            level.files.to_multiset().count(e)
        } else {
            0
        },
{
    let (c, p, k) = lemma_page_parts(level, marker, max_keys, page);
    lemma_whole_page(c, p, k, max_keys, page);
    reveal(Level::has_contents);
    let input = contents_of(level.files, level.prefix, level.delimiter);
    let all = choose|all: Seq<ListEntry>| #[trigger]
        is_stable_sort(input, all) && c == after_marker(all, marker);
    lemma_stable_sort_permutes(input, all);
    lemma_filter_count(
        level.files,
        |e: ListEntry| is_content(e.key@, level.prefix, level.delimiter),
        e,
    );
    lemma_filter_count(all, |e: ListEntry| past(marker, e.sort_key()), e);
}

/// What an untruncated page shows as CommonPrefixes.
pub proof fn lemma_whole_prefixes(
    level: Level,
    marker: Option<Seq<char>>,
    max_keys: nat,
    page: Page,
    g: Seq<char>,
)
    requires
        level.pages(marker, max_keys, page),
        !page.is_truncated,
    ensures
        texts(page.common_prefixes@).contains(g) <==> level.groups(g) && past(marker, g),
{
    let (c, p, k) = lemma_page_parts(level, marker, max_keys, page);
    lemma_whole_page(c, p, k, max_keys, page);
    reveal(Level::has_prefixes);
}

/// The Contents of an untruncated page are the files, each as often as it is there, whose key
/// begins with the prefix, sorts after the marker, and has no delimiter after the prefix. Nothing
/// else about a file matters: neither its size nor its time.
pub proof fn law_whole_page_contents(
    files: &[ListEntry],
    dirs: &[String],
    prefix: &str,
    delimiter: Option<&str>,
    marker: Option<&str>,
    max_keys: usize,
    page: Page,
    e: ListEntry,
)
    requires
        call_ensures(paginate, (files, dirs, prefix, delimiter, marker, max_keys), page),
        !page.is_truncated,
    ensures
        page.contents@.to_multiset().count(e) == if prefix@.is_prefix_of(e.key@) && (
        delimiter matches Some(d) ==> d@.len() == 0 || !is_marked(e.key@, prefix@, d@)) && (
        marker matches Some(m) ==> key_lt(m@, e.key@)) {
            files@.to_multiset().count(e)
        } else {
            0
        },
{
    let level = Level {
        files: files@,
        dirs: texts(dirs@),
        prefix: prefix@,
        delimiter: view_opt(delimiter),
    };
    lemma_whole_contents(level, view_opt(marker), max_keys as nat, page, e);
    if let Some(d) = delimiter {
        if prefix@.is_prefix_of(e.key@) {
            lemma_marked(e.key@, prefix@, d@);
        }
    }
}

/// A file whose key has the delimiter after the prefix is shown as the CommonPrefix that ends
/// with the first one.
pub proof fn law_whole_page_groups_files(
    files: &[ListEntry],
    dirs: &[String],
    prefix: &str,
    delimiter: &str,
    marker: Option<&str>,
    max_keys: usize,
    page: Page,
    i: int,
    group: Seq<char>,
)
    requires
        call_ensures(paginate, (files, dirs, prefix, Some(delimiter), marker, max_keys), page),
        !page.is_truncated,
        0 <= i < files@.len(),
        delimiter@.len() > 0,
        is_cut_at(files@[i].key@, prefix@, delimiter@, group),
        marker matches Some(m) ==> key_lt(m@, group),
    ensures
        texts(page.common_prefixes@).contains(group),
{
    let level = Level {
        files: files@,
        dirs: texts(dirs@),
        prefix: prefix@,
        delimiter: Some(delimiter@),
    };
    let key = files@[i].key@;
    let (a, b) = choose|a: Seq<char>, b: Seq<char>|
        key == #[trigger] (prefix@ + a + delimiter@ + b) && group == prefix@ + a + delimiter@
            && is_shortest(key, prefix@, delimiter@, a);
    assert(key.subrange(0, prefix@.len() as int) =~= prefix@);
    lemma_marked(key, prefix@, delimiter@);
    assert(is_marked(key, prefix@, delimiter@));
    lemma_cut_unique(key, prefix@, delimiter@, group, group_of(key, prefix@, delimiter@)->0);
    assert(collapsed(level.files[i].key@, level.prefix, level.delimiter) == Some(group));
    lemma_whole_prefixes(level, view_opt(marker), max_keys as nat, page, group);
}

/// A directory whose key begins with the prefix is shown as the CommonPrefix of what lies below
/// it: up to the first delimiter after the prefix, or all of its key and a slash if there is
/// none. Where keys are not grouped, directories are, at slashes.
pub proof fn law_whole_page_groups_dirs(
    files: &[ListEntry],
    dirs: &[String],
    prefix: &str,
    delimiter: Option<&str>,
    marker: Option<&str>,
    max_keys: usize,
    page: Page,
    i: int,
    mark: Seq<char>,
    group: Seq<char>,
)
    requires
        call_ensures(paginate, (files, dirs, prefix, delimiter, marker, max_keys), page),
        !page.is_truncated,
        0 <= i < dirs@.len(),
        prefix@.is_prefix_of(dirs@[i]@),
        delimiter matches Some(d) ==> d@.len() > 0 ==> mark == d@,
        (delimiter matches Some(d) ==> d@.len() == 0) ==> mark == seq!['/'],
        is_marked(dirs@[i]@.push('/'), prefix@, mark) ==> is_cut_at(
            dirs@[i]@.push('/'),
            prefix@,
            mark,
            group,
        ),
        !is_marked(dirs@[i]@.push('/'), prefix@, mark) ==> group == dirs@[i]@.push('/'),
        marker matches Some(m) ==> key_lt(m@, group),
    ensures
        texts(page.common_prefixes@).contains(group),
{
    let level = Level {
        files: files@,
        dirs: texts(dirs@),
        prefix: prefix@,
        delimiter: view_opt(delimiter),
    };
    let own = dirs@[i]@;
    let lead = own.push('/');
    assert(lead.subrange(0, prefix@.len() as int) =~= prefix@) by {
        assert(own.subrange(0, prefix@.len() as int) == prefix@);
        assert(lead.subrange(0, prefix@.len() as int) =~= own.subrange(0, prefix@.len() as int));
    }
    assert(dir_delimiter(level.delimiter) == mark);
    lemma_marked(lead, prefix@, mark);
    if is_marked(lead, prefix@, mark) {
        lemma_cut_unique(lead, prefix@, mark, group, group_of(lead, prefix@, mark)->0);
    }
    assert(level.dirs[i] == own);
    assert(dir_group(level.dirs[i], level.prefix, level.delimiter) == group);
    lemma_whole_prefixes(level, view_opt(marker), max_keys as nat, page, group);
}

/// `group` is what the key of a file begins with up to the first `mark` after the prefix.
pub open spec fn is_file_group(
    files: Seq<ListEntry>,
    prefix: Seq<char>,
    mark: Seq<char>,
    group: Seq<char>,
) -> bool {
    exists|i: int| 0 <= i < files.len() && is_cut_at((#[trigger] files[i]).key@, prefix, mark, group)
}

/// `group` is what the keys below a directory begin with up to the first `mark` after the prefix,
/// or all that they begin with.
pub open spec fn is_dir_group(
    dirs: Seq<String>,
    prefix: Seq<char>,
    mark: Seq<char>,
    group: Seq<char>,
) -> bool {
    exists|i: int|
        0 <= i < dirs.len() && prefix.is_prefix_of((#[trigger] dirs[i])@) && (is_cut_at(
            dirs[i]@.push('/'),
            prefix,
            mark,
            group,
        ) || !is_marked(dirs[i]@.push('/'), prefix, mark) && group == dirs[i]@.push('/'))
}

/// Every CommonPrefix of a page is that of a file or of a directory whose key begins with the
/// prefix; of a file only where keys are grouped.
pub proof fn law_common_prefixes_have_a_reason(
    files: &[ListEntry],
    dirs: &[String],
    prefix: &str,
    delimiter: Option<&str>,
    marker: Option<&str>,
    max_keys: usize,
    page: Page,
    mark: Seq<char>,
    group: Seq<char>,
)
    requires
        call_ensures(paginate, (files, dirs, prefix, delimiter, marker, max_keys), page),
        texts(page.common_prefixes@).contains(group),
        delimiter matches Some(d) ==> d@.len() > 0 ==> mark == d@,
        (delimiter matches Some(d) ==> d@.len() == 0) ==> mark == seq!['/'],
    ensures
        marker matches Some(m) ==> key_lt(m@, group),
        is_dir_group(dirs@, prefix@, mark, group) || is_file_group(files@, prefix@, mark, group),
        (delimiter matches Some(d) ==> d@.len() == 0) ==> is_dir_group(
            dirs@,
            prefix@,
            mark,
            group,
        ),
{
    let level = Level {
        files: files@,
        dirs: texts(dirs@),
        prefix: prefix@,
        delimiter: view_opt(delimiter),
    };
    let (c, p, k) = lemma_page_parts(level, view_opt(marker), max_keys as nat, page);
    let shown = k.take(
        if max_keys < k.len() {
            max_keys as int
        } else {
            k.len() as int
        },
    );
    lemma_filter_members(p, |p: Seq<char>| shown.contains(p));
    reveal(Level::has_prefixes);
    assert(level.groups(group));
    if groups_file(level.files, level.files.len() as int, level.prefix, level.delimiter, group) {
        let i = choose|i: int|
            0 <= i < level.files.len() && level.prefix.is_prefix_of(
                (#[trigger] level.files[i]).key@,
            ) && collapsed(level.files[i].key@, level.prefix, level.delimiter) == Some(group);
        lemma_marked(files@[i].key@, prefix@, level.delimiter->0);
        assert(is_cut_at(files@[i].key@, prefix@, level.delimiter->0, group));
    } else {
        let i = choose|i: int|
            0 <= i < level.dirs.len() && level.prefix.is_prefix_of(#[trigger] level.dirs[i])
                && dir_group(level.dirs[i], level.prefix, level.delimiter) == group;
        let own = dirs@[i]@;
        let lead = own.push('/');
        assert(level.dirs[i] == own);
        assert(lead.subrange(0, prefix@.len() as int) =~= own.subrange(0, prefix@.len() as int));
        lemma_marked(lead, prefix@, dir_delimiter(level.delimiter));
        assert(dir_delimiter(level.delimiter) == mark);
        assert(prefix@.is_prefix_of(dirs@[i]@));
    }
}

/// The order of what a page of a level shows.
pub proof fn lemma_level_order(
    level: Level,
    marker: Option<Seq<char>>,
    max_keys: nat,
    page: Page,
    i: int,
    j: int,
)
    requires
        level.pages(marker, max_keys, page),
        0 <= i < j,
    ensures
        j < page.contents@.len() ==> !key_lt(page.contents@[j].key@, page.contents@[i].key@),
        j < page.common_prefixes@.len() ==> key_lt(
            page.common_prefixes@[i]@,
            page.common_prefixes@[j]@,
        ),
{
    law_page_in_order(level, marker, max_keys, page);
    let p = texts(page.common_prefixes@);
    if j < page.common_prefixes@.len() {
        assert(p[i] == page.common_prefixes@[i]@ && p[j] == page.common_prefixes@[j]@);
    }
    if j < page.contents@.len() {
        let a = page.contents@[i].key@;
        let b = page.contents@[j].key@;
        assert(keys_of(page.contents@)[i] == a && keys_of(page.contents@)[j] == b);
        assert(key_le(a, b));
        if key_lt(b, a) {
            lemma_key_lt_asymmetric(b, a);
            lemma_key_lt_irreflexive(a);
        }
    }
}

/// A page comes in order: Contents by key, CommonPrefixes by themselves and each once.
pub proof fn law_page_order(
    files: &[ListEntry],
    dirs: &[String],
    prefix: &str,
    delimiter: Option<&str>,
    marker: Option<&str>,
    max_keys: usize,
    page: Page,
    i: int,
    j: int,
)
    requires
        call_ensures(paginate, (files, dirs, prefix, delimiter, marker, max_keys), page),
        0 <= i < j,
    ensures
        j < page.contents@.len() ==> !key_lt(page.contents@[j].key@, page.contents@[i].key@),
        j < page.common_prefixes@.len() ==> key_lt(
            page.common_prefixes@[i]@,
            page.common_prefixes@[j]@,
        ),
{
    let level = Level {
        files: files@,
        dirs: texts(dirs@),
        prefix: prefix@,
        delimiter: view_opt(delimiter),
    };
    lemma_level_order(level, view_opt(marker), max_keys as nat, page, i, j);
}

/// Where keys are not grouped, files with distinct keys, none of which ends in a slash, are
/// enough for every key to be listed once.
proof fn lemma_ungrouped_lists_once(level: Level)
    requires
        level.delimiter matches Some(d) ==> d.len() == 0,
        keys_distinct(level.files),
        forall|i: int|
            0 <= i < level.files.len() && (#[trigger] level.files[i]).key@.len() > 0
                ==> level.files[i].key@.last() != '/',
    ensures
        level.lists_once(),
{
    assert forall|i: int|
        0 <= i < level.files.len() && is_content(
            (#[trigger] level.files[i]).key@,
            level.prefix,
            level.delimiter,
        ) implies !level.groups(level.files[i].key@) by {
        let key = level.files[i].key@;
        if level.groups(key) {
            let j = choose|j: int|
                0 <= j < level.dirs.len() && level.prefix.is_prefix_of(#[trigger] level.dirs[j])
                    && dir_group(level.dirs[j], level.prefix, level.delimiter) == key;
            let lead = level.dirs[j].push('/');
            lemma_find(lead, seq!['/'], level.prefix.len() as int);
            match find_from(lead, seq!['/'], level.prefix.len() as int) {
                Some(at) => {
                    assert(lead.subrange(at, at + 1)[0] == '/');
                    assert(key == lead.take(at + 1));
                },
                None => {},
            }
            assert(key.last() == '/');
        }
    }
}

/// Two pages that show the first of the same keys, one of them all.
pub proof fn lemma_pages_begin(
    keys: Seq<Seq<char>>,
    page: Page,
    max_keys: nat,
    whole: Page,
    enough: nat,
    a: Seq<char>,
    b: Seq<char>,
)
    requires
        climbing(keys),
        shows_first(page, keys, max_keys),
        shows_first(whole, keys, enough),
        !whole.is_truncated,
    ensures
        page.is_truncated <==> max_keys < whole.contents@.len() + whole.common_prefixes@.len(),
        page.is_truncated ==> page.contents@.len() + page.common_prefixes@.len() == max_keys,
        !page.is_truncated ==> page.contents@.len() + page.common_prefixes@.len()
            == whole.contents@.len() + whole.common_prefixes@.len(),
        page_shows(page, a) ==> page_shows(whole, a),
        page_shows(page, a) && page_shows(whole, b) && !page_shows(page, b) ==> key_lt(a, b),
        page.next_token is Some <==> page.is_truncated && max_keys > 0,
        page.next_token matches Some(t) ==> page_shows(page, t@) && (page_shows(page, a)
            ==> !key_lt(t@, a)),
{
    let shown = first_keys(keys, max_keys);
    assert(page_shows(page, a) <==> shown.contains(a));
    assert(page_shows(page, b) <==> shown.contains(b));
    assert(page_shows(whole, a) <==> keys.contains(a));
    assert(page_shows(whole, b) <==> keys.contains(b));
    if shown.contains(a) {
        let i = choose|i: int| 0 <= i < shown.len() && shown[i] == a;
        assert(keys[i] == a);
        if keys.contains(b) && !shown.contains(b) {
            let j = choose|j: int| 0 <= j < keys.len() && keys[j] == b;
            if j < shown.len() {
                assert(shown[j] == b);
            }
            assert(key_lt(keys[i], keys[j]));
        }
        if let Some(t) = page.next_token {
            let l = shown.len() - 1;
            assert(keys[l] == t@);
            if i < l {
                assert(key_lt(keys[i], keys[l]));
                if key_lt(t@, a) {
                    lemma_key_lt_asymmetric(t@, a);
                }
            } else {
                lemma_key_lt_irreflexive(a);
            }
        }
    }
    if let Some(t) = page.next_token {
        assert(shown.contains(shown[shown.len() - 1]));
        assert(page_shows(page, t@) <==> shown.contains(t@));
    }
}

/// A page of fewer keys is the beginning of the whole. It holds as many keys as it may, or all;
/// what it leaves out sorts after what it shows; it is truncated just when it leaves something
/// out, and then resumes after the last key that it shows.
pub proof fn law_page_is_the_beginning(
    files: &[ListEntry],
    dirs: &[String],
    prefix: &str,
    delimiter: Option<&str>,
    marker: Option<&str>,
    max_keys: usize,
    page: Page,
    enough: usize,
    whole: Page,
    a: Seq<char>,
    b: Seq<char>,
)
    requires
        call_ensures(paginate, (files, dirs, prefix, delimiter, marker, max_keys), page),
        call_ensures(paginate, (files, dirs, prefix, delimiter, marker, enough), whole),
        !whole.is_truncated,
        forall|i: int, j: int|
            0 <= i < j < files@.len() ==> (#[trigger] files@[i]).key@ != (#[trigger] files@[j]).key@,
        forall|i: int|
            0 <= i < files@.len() && (#[trigger] files@[i]).key@.len() > 0 ==> files@[i].key@.last()
                != '/',
    ensures
        page.is_truncated <==> max_keys < whole.contents@.len() + whole.common_prefixes@.len(),
        page.is_truncated ==> page.contents@.len() + page.common_prefixes@.len() == max_keys,
        !page.is_truncated ==> page.contents@.len() + page.common_prefixes@.len()
            == whole.contents@.len() + whole.common_prefixes@.len(),
        page_shows(page, a) ==> page_shows(whole, a),
        page_shows(page, a) && page_shows(whole, b) && !page_shows(page, b) ==> key_lt(a, b),
        page.next_token is Some <==> page.is_truncated && max_keys > 0,
        page.next_token matches Some(t) ==> page_shows(page, t@) && (page_shows(page, a)
            ==> !key_lt(t@, a)),
{
    let level = Level {
        files: files@,
        dirs: texts(dirs@),
        prefix: prefix@,
        delimiter: view_opt(delimiter),
    };
    if delimiter matches Some(d) && d@.len() > 0 {
        law_delimited_lists_once(level);
    } else {
        lemma_ungrouped_lists_once(level);
    }
    let m = view_opt(marker);
    let keys = law_page_shows_first_keys(level, m, max_keys as nat, page);
    let all = law_page_shows_first_keys(level, m, enough as nat, whole);
    lemma_climbing_unique(keys, all);
    lemma_pages_begin(keys, page, max_keys as nat, whole, enough as nat, a, b);
}

/// A set of CommonPrefixes holds what was put into it, and gives it out in order, each once.
pub proof fn law_prefix_set(
    set: &mut CommonPrefixSet,
    prefix: String,
    empty: CommonPrefixSet,
    full: CommonPrefixSet,
    v: Vec<String>,
    p: Seq<char>,
    i: int,
    j: int,
)
    requires
        call_ensures(CommonPrefixSet::insert, (set, prefix), ()),
        call_ensures(<CommonPrefixSet as Default>::default, (), empty),
        call_ensures(CommonPrefixSet::into_vec, (full,), v),
    ensures
        final(set)@.contains(p) <==> old(set)@.contains(p) || p == prefix@,
        !empty@.contains(p),
        full@.contains(p) <==> exists|k: int| 0 <= k < v@.len() && (#[trigger] v@[k])@ == p,
        0 <= i < j < v@.len() ==> key_lt(v@[i]@, v@[j]@),
{
    let t = texts(v@);
    assert(texts(v@).contains(p) <==> full@.contains(p));
    if t.contains(p) {
        let k = choose|k: int| 0 <= k < t.len() && t[k] == p;
        assert(v@[k]@ == p);
    }
    if exists|k: int| 0 <= k < v@.len() && (#[trigger] v@[k])@ == p {
        let k = choose|k: int| 0 <= k < v@.len() && (#[trigger] v@[k])@ == p;
        assert(t[k] == p);
    }
    if 0 <= i < j < v@.len() {
        assert(t[i] == v@[i]@ && t[j] == v@[j]@);
    }
}

/// Keys sort into Contents and CommonPrefixes: one that begins with the prefix and has no
/// delimiter after it is a Content, in the order in which it came; one that has is in the
/// CommonPrefix that ends with the first; any other is left out.
pub proof fn law_keys_sort_into_contents_and_prefixes(
    entries: &[ListEntry],
    prefix: &str,
    delimiter: Option<&str>,
    r: (Vec<ListEntry>, CommonPrefixSet),
    is_plain: spec_fn(ListEntry) -> bool,
    group: Seq<char>,
)
    requires
        call_ensures(list_to_contents, (entries, prefix, delimiter), r),
        forall|e: ListEntry| #[trigger]
            is_plain(e) <==> prefix@.is_prefix_of(e.key@) && (delimiter matches Some(d) ==> d@.len()
                == 0 || !is_marked(e.key@, prefix@, d@)),
    ensures
        r.0@ == entries@.filter(is_plain),
        r.1@.contains(group) <==> (delimiter matches Some(d) && d@.len() > 0 && is_file_group(
            entries@,
            prefix@,
            d@,
            group,
        )),
{
    let other = |e: ListEntry| is_content(e.key@, prefix@, view_opt(delimiter));
    assert forall|e: ListEntry| #[trigger] entries@.contains(e) implies other(e) == is_plain(e) by {
        if let Some(d) = delimiter {
            if prefix@.is_prefix_of(e.key@) {
                lemma_marked(e.key@, prefix@, d@);
            }
        }
    }
    lemma_filter_agrees(entries@, other, is_plain);
    if r.1@.contains(group) {
        let i = choose|i: int|
            0 <= i < entries@.len() && prefix@.is_prefix_of((#[trigger] entries@[i]).key@)
                && collapsed(entries@[i].key@, prefix@, view_opt(delimiter)) == Some(group);
        lemma_marked(entries@[i].key@, prefix@, delimiter->0@);
        assert(is_cut_at(entries@[i].key@, prefix@, delimiter->0@, group));
    }
    if let Some(d) = delimiter {
        if d@.len() > 0 && is_file_group(entries@, prefix@, d@, group) {
            let i = choose|i: int|
                0 <= i < entries@.len() && is_cut_at(
                    (#[trigger] entries@[i]).key@,
                    prefix@,
                    d@,
                    group,
                );
            let key = entries@[i].key@;
            let (a, b) = choose|a: Seq<char>, b: Seq<char>|
                key == #[trigger] (prefix@ + a + d@ + b) && group == prefix@ + a + d@
                    && is_shortest(key, prefix@, d@, a);
            assert(key.subrange(0, prefix@.len() as int) =~= prefix@);
            lemma_marked(key, prefix@, d@);
            assert(is_marked(key, prefix@, d@));
            lemma_cut_unique(key, prefix@, d@, group, group_of(key, prefix@, d@)->0);
            assert(collapsed(entries@[i].key@, prefix@, view_opt(delimiter)) == Some(group));
        }
    }
}

/// A level without entries is shown as an empty page.
pub proof fn lemma_empty_level(
    level: Level,
    marker: Option<Seq<char>>,
    max_keys: nat,
    page: Page,
)
    requires
        level.pages(marker, max_keys, page),
        level.files.len() == 0,
        level.dirs.len() == 0,
    ensures
        page.contents@.len() == 0,
        page.common_prefixes@.len() == 0,
        !page.is_truncated,
        page.next_token is None,
{
    let (c, p, k) = lemma_page_parts(level, marker, max_keys, page);
    assert(c.len() == 0) by {
        if c.len() > 0 {
            assert(keys_of(c)[0] == c[0].key@);
            assert(keys_of(c).contains(c[0].key@));
            lemma_content_keys(level, marker, c, c[0].key@);
        }
    }
    assert(p.len() == 0) by {
        reveal(Level::has_prefixes);
        if p.len() > 0 {
            assert(p.contains(p[0]));
            assert(level.groups(p[0]));
        }
    }
    lemma_keys_cover(c, p, k);
    lemma_whole_page(c, p, k, max_keys, page);
    assert(texts(page.common_prefixes@).len() == page.common_prefixes@.len());
}

/// What a page shows as a Content is one.
pub proof fn lemma_shown_contents(
    level: Level,
    marker: Option<Seq<char>>,
    max_keys: nat,
    page: Page,
    e: ListEntry,
)
    requires
        level.pages(marker, max_keys, page),
        page.contents@.contains(e),
    ensures
        level.files.contains(e),
        is_content(e.key@, level.prefix, level.delimiter),
        past(marker, e.key@),
{
    broadcast use vstd::seq_lib::group_to_multiset_ensures;

    let (c, p, k) = lemma_page_parts(level, marker, max_keys, page);
    let shown = k.take(
        if max_keys < k.len() {
            max_keys as int
        } else {
            k.len() as int
        },
    );
    lemma_filter_members(c, |e: ListEntry| shown.contains(e.key@));
    reveal(Level::has_contents);
    let input = contents_of(level.files, level.prefix, level.delimiter);
    let all = choose|all: Seq<ListEntry>| #[trigger]
        is_stable_sort(input, all) && c == after_marker(all, marker);
    lemma_stable_sort_permutes(input, all);
    lemma_filter_members(all, |e: ListEntry| past(marker, e.sort_key()));
    lemma_filter_members(
        level.files,
        |e: ListEntry| is_content(e.key@, level.prefix, level.delimiter),
    );
    assert(all.contains(e));
    assert(input.contains(e));
}

/// What a page shows as a CommonPrefix is one.
pub proof fn lemma_shown_prefixes(
    level: Level,
    marker: Option<Seq<char>>,
    max_keys: nat,
    page: Page,
    g: Seq<char>,
)
    requires
        level.pages(marker, max_keys, page),
        texts(page.common_prefixes@).contains(g),
    ensures
        level.groups(g),
        past(marker, g),
{
    let (c, p, k) = lemma_page_parts(level, marker, max_keys, page);
    let shown = k.take(
        if max_keys < k.len() {
            max_keys as int
        } else {
            k.len() as int
        },
    );
    lemma_filter_members(p, |p: Seq<char>| shown.contains(p));
    reveal(Level::has_prefixes);
}

/// Every Content of a page, truncated or not, is one of the files, as it is there.
pub proof fn law_contents_are_files(
    files: &[ListEntry],
    dirs: &[String],
    prefix: &str,
    delimiter: Option<&str>,
    marker: Option<&str>,
    max_keys: usize,
    page: Page,
    j: int,
)
    requires
        call_ensures(paginate, (files, dirs, prefix, delimiter, marker, max_keys), page),
        0 <= j < page.contents@.len(),
    ensures
        files@.contains(page.contents@[j]),
        prefix@.is_prefix_of(page.contents@[j].key@),
        delimiter matches Some(d) ==> d@.len() == 0 || !is_marked(
            page.contents@[j].key@,
            prefix@,
            d@,
        ),
        marker matches Some(m) ==> key_lt(m@, page.contents@[j].key@),
{
    let level = Level {
        files: files@,
        dirs: texts(dirs@),
        prefix: prefix@,
        delimiter: view_opt(delimiter),
    };
    let e = page.contents@[j];
    assert(page.contents@.contains(e));
    lemma_shown_contents(level, view_opt(marker), max_keys as nat, page, e);
    if let Some(d) = delimiter {
        lemma_marked(e.key@, prefix@, d@);
    }
}

} // verus!
