//! S3 key <-> HDFS path translation.
//!
//! One bucket is backed by one HDFS root: the key `foo/bar.parquet` names the path
//! `{root}/foo/bar.parquet`. Paths are POSIX-shaped, only `/` separates, and no key may
//! resolve to a path outside the root.

use crate::config::Config;
use crate::text::{same_text, starts_with, to_chars};
use vstd::prelude::*;

verus! {

// ---------------------------------------------------------------------------------------
// Model: paths as sequences of names
// ---------------------------------------------------------------------------------------

/// The pieces of `s` between the occurrences of `sep`.
pub open spec fn split(s: Seq<char>, sep: char) -> Seq<Seq<char>>
    decreases s.len(),
{
    if s.len() == 0 {
        seq![Seq::<char>::empty()]
    } else {
        let front = split(s.drop_last(), sep);
        if s.last() == sep {
            front.push(Seq::<char>::empty())
        } else {
            front.drop_last().push(front.last().push(s.last()))
        }
    }
}

/// `parts` with `sep` between them.
pub open spec fn join(parts: Seq<Seq<char>>, sep: char) -> Seq<char>
    decreases parts.len(),
{
    if parts.len() == 0 {
        Seq::<char>::empty()
    } else if parts.len() == 1 {
        parts[0]
    } else {
        join(parts.drop_last(), sep).push(sep) + parts.last()
    }
}

/// Where `segment` leads from the directory named by `at`. `None` if it would leave the
/// filesystem root of an absolute path.
pub open spec fn enter(
    at: Seq<Seq<char>>,
    segment: Seq<char>,
    absolute: bool,
) -> Option<Seq<Seq<char>>> {
    if segment == Seq::<char>::empty() || segment == seq!['.'] {
        Some(at)
    } else if segment == seq!['.', '.'] {
        if at.len() > 0 {
            Some(at.drop_last())
        } else if absolute {
            None
        } else {
            Some(at)
        }
    } else {
        Some(at.push(segment))
    }
}

/// Where following `segments` one by one leads from `at`.
pub open spec fn walk(
    at: Seq<Seq<char>>,
    segments: Seq<Seq<char>>,
    absolute: bool,
) -> Option<Seq<Seq<char>>>
    decreases segments.len(),
{
    if segments.len() == 0 {
        Some(at)
    } else {
        match walk(at, segments.drop_last(), absolute) {
            None => None,
            Some(there) => enter(there, segments.last(), absolute),
        }
    }
}

/// A path is absolute when it begins with `/`.
pub open spec fn is_absolute(path: Seq<char>) -> bool {
    path.len() > 0 && path[0] == '/'
}

/// The absolute path that `names` spell.
pub open spec fn abs_path(names: Seq<Seq<char>>) -> Seq<char> {
    seq!['/'] + join(names, '/')
}

/// `path` without empty, `.` and `..` segments. `None` if a `..` leaves the root of an
/// absolute path.
pub open spec fn normalized(path: Seq<char>) -> Option<Seq<char>> {
    match walk(Seq::<Seq<char>>::empty(), split(path, '/'), is_absolute(path)) {
        None => None,
        Some(names) => Some(
            if is_absolute(path) {
                abs_path(names)
            } else {
                join(names, '/')
            },
        ),
    }
}

/// A real file or directory name: not empty, no separator, neither `.` nor `..`.
pub open spec fn is_name(s: Seq<char>) -> bool {
    &&& s != Seq::<char>::empty()
    &&& s != seq!['.']
    &&& s != seq!['.', '.']
    &&& !s.contains('/')
}

/// Every element is a real name.
pub open spec fn all_names(names: Seq<Seq<char>>) -> bool {
    forall|i: int| 0 <= i < names.len() ==> is_name(#[trigger] names[i])
}

/// The views of string slices.
pub open spec fn views(v: Seq<&str>) -> Seq<Seq<char>> {
    Seq::new(v.len(), |i: int| v[i]@)
}

/// `path` is `dir` itself or lies below it.
pub open spec fn at_or_below(path: Seq<char>, dir: Seq<char>) -> bool {
    if dir == seq!['/'] {
        is_absolute(path)
    } else {
        path == dir || dir.push('/').is_prefix_of(path)
    }
}

/// `key` without its leading slashes.
pub open spec fn trim_slashes(key: Seq<char>) -> Seq<char>
    decreases key.len(),
{
    if key.len() > 0 && key[0] == '/' {
        trim_slashes(key.drop_first())
    } else {
        key
    }
}

/// `root` and `key` with one slash between them.
pub open spec fn joined(root: Seq<char>, key: Seq<char>) -> Seq<char> {
    if root == seq!['/'] {
        root + key
    } else {
        root.push('/') + key
    }
}

/// The HDFS path that a key names under `root`: `None` for an empty key and for one that
/// resolves to a place outside the root.
pub open spec fn path_of_key(root: Seq<char>, key: Seq<char>) -> Option<Seq<char>> {
    let name = trim_slashes(key);
    if name.len() == 0 {
        None
    } else {
        match normalized(joined(root, name)) {
            Some(path) if at_or_below(path, root) => Some(path),
            _ => None,
        }
    }
}

/// The key of an HDFS path under `root`: empty for the root itself, `None` outside it.
pub open spec fn key_of_path(root: Seq<char>, path: Seq<char>) -> Option<Seq<char>> {
    match normalized(path) {
        None => None,
        Some(n) => if n == root {
            Some(Seq::<char>::empty())
        } else if root == seq!['/'] {
            if is_absolute(n) {
                Some(n.drop_first())
            } else {
                None
            }
        } else if root.push('/').is_prefix_of(n) {
            Some(n.skip((root.len() + 1) as int))
        } else {
            None
        },
    }
}

/// A configured root made absolute and normalized; `/` if it cannot be.
pub open spec fn root_of(configured: Seq<char>) -> Seq<char> {
    let rooted = if is_absolute(configured) {
        configured
    } else {
        seq!['/'] + configured
    };
    match normalized(rooted) {
        Some(root) => root,
        None => seq!['/'],
    }
}

/// The part of `prefix` before its last `/`; empty if there is none.
pub open spec fn dir_part(prefix: Seq<char>) -> Seq<char>
    decreases prefix.len(),
{
    if prefix.len() == 0 {
        prefix
    } else if prefix.last() == '/' {
        prefix.drop_last()
    } else {
        dir_part(prefix.drop_last())
    }
}

/// The directory that holds whatever can match `prefix`: the root joined with the
/// directory part of the prefix. `None` if that part does not name a place under the root.
pub open spec fn start_of(root: Seq<char>, prefix: Seq<char>) -> Option<Seq<char>> {
    let dir = dir_part(prefix);
    if dir.len() == 0 {
        Some(root)
    } else {
        path_of_key(root, dir)
    }
}

// ---------------------------------------------------------------------------------------
// Executable path handling
// ---------------------------------------------------------------------------------------

pub proof fn lemma_split_nonempty(s: Seq<char>, sep: char)
    ensures
        split(s, sep).len() > 0,
    decreases s.len(),
{
    if s.len() > 0 {
        lemma_split_nonempty(s.drop_last(), sep);
    }
}

/// The pieces of `s` between the occurrences of `sep`.
pub(crate) fn split_text<'a>(s: &'a str, sep: char) -> (pieces: Vec<&'a str>)
    ensures
        views(pieces@) == split(s@, sep),
{
    let chars = to_chars(s);
    let mut pieces: Vec<&'a str> = Vec::new();
    let mut start: usize = 0;
    let mut i: usize = 0;
    assert(s@.take(0) =~= Seq::<char>::empty());
    assert(views(pieces@).push(s@.subrange(0, 0)) =~= split(s@.take(0), sep));
    while i < chars.len()
        invariant
            chars@ == s@,
            start <= i <= chars.len(),
            views(pieces@).push(s@.subrange(start as int, i as int)) == split(
                s@.take(i as int),
                sep,
            ),
        decreases chars.len() - i,
    {
        let ghost before = s@.take(i as int);
        let ghost after = s@.take(i + 1);
        let ghost pieces0 = pieces@;
        proof {
            assert(after.drop_last() =~= before);
            assert(after.last() == s@[i as int]);
        }
        if chars[i] == sep {
            let piece = s.substring_char(start, i);
            pieces.push(piece);
            start = i + 1;
            proof {
                assert(views(pieces@) =~= views(pieces0).push(piece@));
                assert(s@.subrange(start as int, i + 1) =~= Seq::<char>::empty());
            }
        } else {
            proof {
                let cur = s@.subrange(start as int, i as int);
                let front = views(pieces@).push(cur);
                assert(front.drop_last() =~= views(pieces@));
                assert(s@.subrange(start as int, i + 1) =~= cur.push(s@[i as int]));
            }
        }
        i += 1;
    }
    let ghost pieces0 = pieces@;
    let last = s.substring_char(start, chars.len());
    pieces.push(last);
    proof {
        assert(views(pieces@) =~= views(pieces0).push(last@));
        assert(s@.take(s@.len() as int) =~= s@);
    }
    pieces
}

/// The pieces with slashes between them.
fn join_slashes(parts: &Vec<&str>) -> (s: String)
    ensures
        s@ == join(views(parts@), '/'),
{
    let mut s = String::new();
    let mut i: usize = 0;
    proof {
        reveal_strlit("/");
    }
    assert(views(parts@).take(0) =~= Seq::<Seq<char>>::empty());
    while i < parts.len()
        invariant
            i <= parts.len(),
            "/"@ == seq!['/'],
            s@ == join(views(parts@).take(i as int), '/'),
        decreases parts.len() - i,
    {
        let ghost next = views(parts@).take(i + 1);
        proof {
            assert(next.drop_last() =~= views(parts@).take(i as int));
            assert(next.last() == parts@[i as int]@);
        }
        if i > 0 {
            s.append("/");
        }
        s.append(parts[i]);
        proof {
            if i > 0 {
                assert(s@ =~= join(next.drop_last(), '/').push('/') + next.last());
            } else {
                assert(s@ =~= next[0]);
            }
        }
        i += 1;
    }
    assert(views(parts@).take(parts@.len() as int) =~= views(parts@));
    s
}

/// Whether a path begins with `/`.
fn is_absolute_path(path: &str) -> (r: bool)
    ensures
        r == is_absolute(path@),
{
    proof {
        reveal_strlit("/");
    }
    let r = starts_with(path, "/");
    proof {
        if is_absolute(path@) {
            assert(path@.subrange(0, 1) =~= seq!['/']);
        } else if r {
            assert(path@.subrange(0, 1)[0] == '/');
        }
    }
    r
}

/// Collapse the empty, `.` and `..` segments of a POSIX-style path without touching the
/// filesystem. `None` if a `..` would leave the root of an absolute path; a relative path
/// simply ignores such a segment.
pub fn normalize_abs(path: &str) -> (r: Option<String>)
    ensures
        r is Some <==> normalized(path@) is Some,
        r matches Some(s) ==> normalized(path@) == Some(s@),
{
    let absolute = is_absolute_path(path);
    let segments = split_text(path, '/');
    let mut parts: Vec<&str> = Vec::new();
    let mut i: usize = 0;
    let ghost segs = views(segments@);
    let ghost root = Seq::<Seq<char>>::empty();
    proof {
        reveal_strlit("");
        reveal_strlit(".");
        reveal_strlit("..");
        assert(""@ =~= Seq::<char>::empty());
        assert("."@ =~= seq!['.']);
        assert(".."@ =~= seq!['.', '.']);
        assert(segs.take(0) =~= root);
        assert(views(parts@) =~= root);
    }
    while i < segments.len()
        invariant
            i <= segments.len(),
            segs == views(segments@),
            root == Seq::<Seq<char>>::empty(),
            segs == split(path@, '/'),
            absolute == is_absolute(path@),
            ""@ == Seq::<char>::empty(),
            "."@ == seq!['.'],
            ".."@ == seq!['.', '.'],
            walk(root, segs.take(i as int), absolute) == Some(views(parts@)),
        decreases segments.len() - i,
    {
        let segment = segments[i];
        let ghost parts0 = parts@;
        proof {
            let next = segs.take(i + 1);
            assert(next.drop_last() =~= segs.take(i as int));
            assert(next.last() == segment@);
        }
        if same_text(segment, "") || same_text(segment, ".") {
        } else if same_text(segment, "..") {
            if parts.pop().is_none() {
                if absolute {
                    proof {
                        assert(parts0.len() == 0);
                        assert(walk(root, segs.take(i + 1), absolute) is None);
                        lemma_walk_stays_lost(root, segs, absolute, i + 1);
                    }
                    return None;
                }
                assert(views(parts@) =~= views(parts0));
            } else {
                assert(views(parts@) =~= views(parts0).drop_last());
            }
        } else {
            parts.push(segment);
            assert(views(parts@) =~= views(parts0).push(segment@));
        }
        i += 1;
    }
    assert(segs.take(segs.len() as int) =~= segs);
    let joined_parts = join_slashes(&parts);
    if absolute {
        proof {
            reveal_strlit("/");
            assert("/"@ =~= seq!['/']);
        }
        let mut s = String::new();
        s.append("/");
        s.append(joined_parts.as_str());
        assert(s@ =~= abs_path(views(parts@)));
        Some(s)
    } else {
        Some(joined_parts)
    }
}

/// Once a walk has left the root, it does not come back.
proof fn lemma_walk_stays_lost(
    at: Seq<Seq<char>>,
    segments: Seq<Seq<char>>,
    absolute: bool,
    n: int,
)
    requires
        0 <= n <= segments.len(),
        walk(at, segments.take(n), absolute) is None,
    ensures
        walk(at, segments, absolute) is None,
    decreases segments.len() - n,
{
    if n < segments.len() {
        assert(segments.take(n + 1).drop_last() =~= segments.take(n));
        lemma_walk_stays_lost(at, segments, absolute, n + 1);
    } else {
        assert(segments.take(n) =~= segments);
    }
}

/// Join a normalized root and a key without producing `//` when the root is `/`.
fn join_root(root: &str, key: &str) -> (s: String)
    ensures
        s@ == joined(root@, key@),
{
    proof {
        reveal_strlit("/");
        assert("/"@ =~= seq!['/']);
    }
    let mut s = String::new();
    s.append(root);
    if !same_text(root, "/") {
        s.append("/");
    }
    s.append(key);
    assert(s@ =~= joined(root@, key@));
    s
}

/// Make a root absolute, collapse its `.` and `..` segments and drop a trailing slash. A
/// root that leaves the filesystem becomes `/`.
fn normalize_root(root: &str) -> (s: String)
    ensures
        s@ == root_of(root@),
{
    proof {
        reveal_strlit("/");
        assert("/"@ =~= seq!['/']);
    }
    let mut rooted = String::new();
    if !is_absolute_path(root) {
        rooted.append("/");
    }
    rooted.append(root);
    proof {
        if is_absolute(root@) {
            assert(rooted@ =~= root@);
        } else {
            assert(rooted@ =~= seq!['/'] + root@);
        }
    }
    match normalize_abs(rooted.as_str()) {
        Some(s) => s,
        None => "/".to_string(),
    }
}

/// Translates S3 keys to absolute HDFS paths under a configured root and back.
#[derive(Debug, Clone)]
pub struct PathMapper {
    root: String,
    bucket: String,
}

impl PathMapper {
    /// The HDFS root that keys are relative to.
    pub closed spec fn root_view(&self) -> Seq<char> {
        self.root@
    }

    /// The exposed bucket name.
    pub closed spec fn bucket_view(&self) -> Seq<char> {
        self.bucket@
    }

    /// The root is absolute and normalized.
    pub open spec fn wf(&self) -> bool {
        is_root(self.root_view())
    }

    /// A mapper for the configured root and bucket.
    pub fn new(config: &Config) -> (m: Self)
        ensures
            m.root_view() == root_of(config.hdfs_root@),
            m.bucket_view() == config.bucket_name@,
            m.wf(),
    {
        let root = normalize_root(config.hdfs_root.as_str());
        proof {
            lemma_root_of_is_root(config.hdfs_root@);
        }
        PathMapper { root, bucket: config.bucket_name.clone() }
    }

    /// The single configured bucket name.
    pub fn bucket(&self) -> (s: &str)
        ensures
            s@ == self.bucket_view(),
    {
        self.bucket.as_str()
    }

    /// The configured HDFS root, normalized, without a trailing slash.
    pub fn root(&self) -> (s: &str)
        ensures
            s@ == self.root_view(),
    {
        self.root.as_str()
    }

    /// Resolve an S3 key into an absolute HDFS path. `None` if the key is empty or would
    /// escape the root. The key is expected to be URL-decoded already.
    pub fn key_to_hdfs_path(&self, key: &str) -> (r: Option<String>)
        ensures
            r is Some <==> path_of_key(self.root_view(), key@) is Some,
            r matches Some(p) ==> path_of_key(self.root_view(), key@) == Some(p@),
    {
        let name = trim_leading_slashes(key);
        if name.is_empty() {
            return None;
        }
        let combined = join_root(self.root.as_str(), name);
        match normalize_abs(combined.as_str()) {
            None => None,
            Some(path) => if self.holds(path.as_str()) {
                Some(path)
            } else {
                None
            },
        }
    }

    /// Whether a normalized path is the root or lies below it.
    fn holds(&self, path: &str) -> (r: bool)
        ensures
            r == at_or_below(path@, self.root_view()),
    {
        proof {
            reveal_strlit("/");
            assert("/"@ =~= seq!['/']);
        }
        if same_text(self.root.as_str(), "/") {
            is_absolute_path(path)
        } else if same_text(path, self.root.as_str()) {
            true
        } else {
            let mut below = self.root.clone();
            below.append("/");
            assert(below@ =~= self.root@.push('/'));
            starts_with(path, below.as_str())
        }
    }

    /// The S3 key of an absolute HDFS path, relative to the root. `None` if the path is not
    /// under the root.
    pub fn hdfs_path_to_key(&self, hdfs_path: &str) -> (r: Option<String>)
        ensures
            r is Some <==> key_of_path(self.root_view(), hdfs_path@) is Some,
            r matches Some(k) ==> key_of_path(self.root_view(), hdfs_path@) == Some(k@),
    {
        proof {
            reveal_strlit("/");
            assert("/"@ =~= seq!['/']);
        }
        match normalize_abs(hdfs_path) {
            None => None,
            Some(path) => {
                let path = path.as_str();
                if same_text(path, self.root.as_str()) {
                    return Some(String::new());
                }
                let mut lead = String::new();
                if !same_text(self.root.as_str(), "/") {
                    lead.append(self.root.as_str());
                }
                lead.append("/");
                proof {
                    if self.root@ == seq!['/'] {
                        assert(lead@ =~= seq!['/']);
                        if is_absolute(path@) {
                            assert(path@.subrange(0, 1) =~= seq!['/']);
                        } else if lead@.is_prefix_of(path@) {
                            assert(path@.subrange(0, 1)[0] == '/');
                        }
                    } else {
                        assert(lead@ =~= self.root@.push('/'));
                    }
                }
                if starts_with(path, lead.as_str()) {
                    let n = lead.as_str().unicode_len();
                    let total = path.unicode_len();
                    let key = path.substring_char(n, total);
                    proof {
                        assert(key@ =~= path@.skip(n as int));
                        if self.root@ == seq!['/'] {
                            assert(key@ =~= path@.drop_first());
                        }
                    }
                    Some(key.to_string())
                } else {
                    None
                }
            },
        }
    }

    /// The HDFS directory whose subtree holds every key that begins with `prefix`: the
    /// directory part of the prefix under the root. `None` if the prefix cannot match any
    /// key under the root.
    pub fn list_start(&self, prefix: &str) -> (r: Option<String>)
        ensures
            r is Some <==> start_of(self.root_view(), prefix@) is Some,
            r matches Some(d) ==> start_of(self.root_view(), prefix@) == Some(d@),
    {
        let dir = dir_of(prefix);
        if dir.is_empty() {
            Some(self.root.clone())
        } else {
            self.key_to_hdfs_path(dir)
        }
    }
}

/// `key` without its leading slashes.
fn trim_leading_slashes<'a>(key: &'a str) -> (r: &'a str)
    ensures
        r@ == trim_slashes(key@),
{
    let chars = to_chars(key);
    let mut i: usize = 0;
    assert(key@.skip(0) =~= key@);
    while i < chars.len() && chars[i] == '/'
        invariant
            chars@ == key@,
            i <= chars.len(),
            trim_slashes(key@) == trim_slashes(key@.skip(i as int)),
        decreases chars.len() - i,
    {
        assert(key@.skip(i as int).drop_first() =~= key@.skip(i + 1));
        i += 1;
    }
    let r = key.substring_char(i, chars.len());
    proof {
        assert(r@ =~= key@.skip(i as int));
        if i < chars.len() {
            assert(r@[0] == chars@[i as int]);
        }
    }
    r
}

/// The part of `prefix` before its last slash.
fn dir_of<'a>(prefix: &'a str) -> (r: &'a str)
    ensures
        r@ == dir_part(prefix@),
{
    let chars = to_chars(prefix);
    let mut i: usize = chars.len();
    assert(prefix@.take(prefix@.len() as int) =~= prefix@);
    while i > 0
        invariant
            chars@ == prefix@,
            i <= chars.len(),
            dir_part(prefix@) == dir_part(prefix@.take(i as int)),
        decreases i,
    {
        let ghost here = prefix@.take(i as int);
        proof {
            assert(here.drop_last() =~= prefix@.take(i - 1));
            assert(here.last() == chars@[i - 1]);
        }
        if chars[i - 1] == '/' {
            let r = prefix.substring_char(0, i - 1);
            assert(r@ =~= prefix@.take(i - 1));
            return r;
        }
        i -= 1;
    }
    let r = prefix.substring_char(0, 0);
    assert(r@ =~= prefix@.take(0));
    r
}

// ---------------------------------------------------------------------------------------
// Laws
// ---------------------------------------------------------------------------------------

/// A normalized absolute path.
pub open spec fn is_root(root: Seq<char>) -> bool {
    exists|names: Seq<Seq<char>>| #[trigger] all_names(names) && root == abs_path(names)
}

/// Entering a segment keeps real names, when the segment has no separator.
proof fn lemma_enter_names(at: Seq<Seq<char>>, segment: Seq<char>, absolute: bool)
    requires
        all_names(at),
        !segment.contains('/'),
    ensures
        enter(at, segment, absolute) matches Some(there) ==> all_names(there),
{
}

/// No piece of a split holds the separator.
pub proof fn lemma_split_pieces(s: Seq<char>, sep: char)
    ensures
        split(s, sep).len() > 0,
        forall|i: int|
            0 <= i < split(s, sep).len() ==> !(#[trigger] split(s, sep)[i]).contains(sep),
    decreases s.len(),
{
    if s.len() > 0 {
        lemma_split_pieces(s.drop_last(), sep);
        let front = split(s.drop_last(), sep);
        if s.last() != sep {
            let piece = front.last().push(s.last());
            assert(!front[front.len() - 1].contains(sep));
            if piece.contains(sep) {
                let j = choose|j: int| 0 <= j < piece.len() && piece[j] == sep;
                assert(j < front.last().len());
                assert(front.last()[j] == sep);
            }
        }
    }
}

/// A walk along pieces of a split ends in a place spelled by real names.
proof fn lemma_walk_names(at: Seq<Seq<char>>, segments: Seq<Seq<char>>, absolute: bool)
    requires
        all_names(at),
        forall|i: int| 0 <= i < segments.len() ==> !(#[trigger] segments[i]).contains('/'),
    ensures
        walk(at, segments, absolute) matches Some(there) ==> all_names(there),
    decreases segments.len(),
{
    if segments.len() > 0 {
        lemma_walk_names(at, segments.drop_last(), absolute);
        if let Some(there) = walk(at, segments.drop_last(), absolute) {
            lemma_enter_names(there, segments.last(), absolute);
        }
    }
}

/// The configured root becomes an absolute, normalized path.
proof fn lemma_root_of_is_root(configured: Seq<char>)
    ensures
        is_root(root_of(configured)),
{
    let rooted = if is_absolute(configured) {
        configured
    } else {
        seq!['/'] + configured
    };
    let none = Seq::<Seq<char>>::empty();
    lemma_split_pieces(rooted, '/');
    lemma_walk_names(none, split(rooted, '/'), true);
    if let Some(names) = walk(none, split(rooted, '/'), true) {
        assert(root_of(configured) == abs_path(names));
        assert(all_names(names));
    } else {
        assert(all_names(none));
        assert(abs_path(none) =~= seq!['/']);
    }
}

/// Splitting around a separator splits both sides.
pub proof fn lemma_split_concat(a: Seq<char>, b: Seq<char>, sep: char)
    ensures
        split(a.push(sep) + b, sep) == split(a, sep) + split(b, sep),
    decreases b.len(),
{
    let whole = a.push(sep) + b;
    if b.len() == 0 {
        assert(whole =~= a.push(sep));
        assert(whole.drop_last() =~= a);
        assert(split(whole, sep) =~= split(a, sep) + split(b, sep));
    } else {
        lemma_split_concat(a, b.drop_last(), sep);
        lemma_split_nonempty(b.drop_last(), sep);
        let front = split(a, sep) + split(b.drop_last(), sep);
        assert(whole.drop_last() =~= a.push(sep) + b.drop_last());
        assert(whole.last() == b.last());
        assert(front.last() == split(b.drop_last(), sep).last());
        assert(split(whole, sep) =~= split(a, sep) + split(b, sep));
    }
}

/// A piece without separator splits into itself.
pub proof fn lemma_split_single(s: Seq<char>, sep: char)
    requires
        !s.contains(sep),
    ensures
        split(s, sep) == seq![s],
    decreases s.len(),
{
    if s.len() > 0 {
        assert forall|i: int| 0 <= i < s.drop_last().len() implies s.drop_last()[i] != sep by {
            assert(s[i] != sep);
        }
        assert(s[s.len() - 1] != sep);
        lemma_split_single(s.drop_last(), sep);
        assert(s.drop_last().push(s.last()) =~= s);
        assert(split(s, sep) =~= seq![s]);
    } else {
        assert(s =~= Seq::<char>::empty());
    }
}

/// Splitting undoes joining.
pub proof fn lemma_split_join(parts: Seq<Seq<char>>, sep: char)
    requires
        parts.len() > 0,
        forall|i: int| 0 <= i < parts.len() ==> !(#[trigger] parts[i]).contains(sep),
    ensures
        split(join(parts, sep), sep) == parts,
    decreases parts.len(),
{
    if parts.len() == 1 {
        lemma_split_single(parts[0], sep);
        assert(parts =~= seq![parts[0]]);
    } else {
        lemma_split_join(parts.drop_last(), sep);
        lemma_split_concat(join(parts.drop_last(), sep), parts.last(), sep);
        lemma_split_single(parts.last(), sep);
        assert(parts.drop_last() + seq![parts.last()] =~= parts);
    }
}

/// Joining a concatenation joins the two joins.
pub proof fn lemma_join_concat(a: Seq<Seq<char>>, b: Seq<Seq<char>>, sep: char)
    requires
        a.len() > 0,
        b.len() > 0,
    ensures
        join(a + b, sep) == join(a, sep).push(sep) + join(b, sep),
    decreases b.len(),
{
    if b.len() == 1 {
        assert((a + b).drop_last() =~= a);
        assert((a + b).last() == b[0]);
    } else {
        lemma_join_concat(a, b.drop_last(), sep);
        assert((a + b).drop_last() =~= a + b.drop_last());
        assert((a + b).last() == b.last());
        assert(join(a + b, sep) =~= join(a, sep).push(sep) + join(b, sep));
    }
}

/// Walking a concatenation is walking one part after the other.
proof fn lemma_walk_concat(
    at: Seq<Seq<char>>,
    a: Seq<Seq<char>>,
    b: Seq<Seq<char>>,
    absolute: bool,
)
    ensures
        walk(at, a + b, absolute) == match walk(at, a, absolute) {
            None => None,
            Some(there) => walk(there, b, absolute),
        },
    decreases b.len(),
{
    if b.len() == 0 {
        assert(a + b =~= a);
    } else {
        lemma_walk_concat(at, a, b.drop_last(), absolute);
        assert((a + b).drop_last() =~= a + b.drop_last());
        assert((a + b).last() == b.last());
    }
}

/// Real names are entered one by one.
proof fn lemma_walk_real_names(at: Seq<Seq<char>>, names: Seq<Seq<char>>, absolute: bool)
    requires
        all_names(names),
    ensures
        walk(at, names, absolute) == Some(at + names),
    decreases names.len(),
{
    if names.len() == 0 {
        assert(at + names =~= at);
    } else {
        lemma_walk_real_names(at, names.drop_last(), absolute);
        assert(is_name(names[names.len() - 1]));
        assert((at + names.drop_last()).push(names.last()) =~= at + names);
    }
}

/// The walk along an absolute path that real names spell ends at those names.
proof fn lemma_walk_abs_path(names: Seq<Seq<char>>)
    requires
        all_names(names),
    ensures
        walk(Seq::<Seq<char>>::empty(), split(abs_path(names), '/'), true) == Some(names),
{
    let none = Seq::<Seq<char>>::empty();
    let empty = Seq::<char>::empty();
    assert(abs_path(names) =~= empty.push('/') + join(names, '/'));
    lemma_split_concat(empty, join(names, '/'), '/');
    let lead = split(empty, '/');
    assert(lead =~= seq![empty]);
    lemma_walk_concat(none, lead, split(join(names, '/'), '/'), true);
    assert(lead.drop_last() =~= none);
    assert(walk(none, lead.drop_last(), true) == Some(none));
    assert(enter(none, lead.last(), true) == Some(none));
    assert(walk(none, lead, true) == Some(none));
    if names.len() == 0 {
        assert(split(join(names, '/'), '/') =~= seq![empty]);
        assert(names =~= none);
    } else {
        lemma_split_join(names, '/');
        lemma_walk_real_names(none, names, true);
        assert(none + names =~= names);
    }
}

/// A path that real names spell is its own normal form.
pub proof fn lemma_abs_path_normalized(names: Seq<Seq<char>>)
    requires
        all_names(names),
    ensures
        normalized(abs_path(names)) == Some(abs_path(names)),
{
    lemma_walk_abs_path(names);
}

/// Different names spell different paths.
pub proof fn lemma_abs_path_injective(a: Seq<Seq<char>>, b: Seq<Seq<char>>)
    requires
        all_names(a),
        all_names(b),
        abs_path(a) == abs_path(b),
    ensures
        a == b,
{
    lemma_walk_abs_path(a);
    lemma_walk_abs_path(b);
}

/// A joined sequence of real names is not empty and does not begin with a slash.
pub proof fn lemma_join_names_nonempty(names: Seq<Seq<char>>)
    requires
        all_names(names),
        names.len() > 0,
    ensures
        join(names, '/').len() > 0,
        join(names, '/')[0] != '/',
        trim_slashes(join(names, '/')) == join(names, '/'),
    decreases names.len(),
{
    assert(is_name(names[0]));
    if names.len() == 1 {
        assert(names[0].len() > 0) by {
            if names[0].len() == 0 {
                assert(names[0] =~= Seq::<char>::empty());
            }
        }
        assert(names[0].contains(names[0][0]));
    } else {
        lemma_join_names_nonempty(names.drop_last());
    }
}

/// Below a directory, the path is the directory's path joined with the rest.
pub proof fn lemma_abs_path_concat(a: Seq<Seq<char>>, b: Seq<Seq<char>>)
    requires
        all_names(a),
        b.len() > 0,
    ensures
        abs_path(a + b) == joined(abs_path(a), join(b, '/')),
{
    if a.len() == 0 {
        assert(a + b =~= b);
        assert(abs_path(a) =~= seq!['/']);
    } else {
        lemma_join_concat(a, b, '/');
        lemma_join_names_nonempty(a);
        assert(abs_path(a)[1] == join(a, '/')[0]);
        assert(abs_path(a) != seq!['/']) by {
            assert(abs_path(a).len() > 1);
        }
        assert(abs_path(a + b) =~= abs_path(a).push('/') + join(b, '/'));
    }
}

/// Everything normalization yields for an absolute path is spelled by real names.
pub proof fn lemma_normalized_is_root(path: Seq<char>)
    requires
        is_absolute(path),
    ensures
        normalized(path) matches Some(n) ==> is_root(n),
{
    let none = Seq::<Seq<char>>::empty();
    lemma_split_pieces(path, '/');
    lemma_walk_names(none, split(path, '/'), true);
    if let Some(names) = walk(none, split(path, '/'), true) {
        assert(all_names(names));
    }
}

/// If `dir` followed by a slash begins a joined sequence of real names, its pieces are the
/// first of those names.
pub proof fn lemma_dir_prefix(dir: Seq<char>, names: Seq<Seq<char>>)
    requires
        all_names(names),
        names.len() > 0,
        dir.push('/').is_prefix_of(join(names, '/')),
    ensures
        split(dir, '/').len() < names.len(),
        names.take(split(dir, '/').len() as int) == split(dir, '/'),
        dir == join(names.take(split(dir, '/').len() as int), '/'),
        join(names, '/') == dir.push('/') + join(names.skip(split(dir, '/').len() as int), '/'),
{
    let whole = join(names, '/');
    let rest = whole.skip(dir.len() as int + 1);
    assert(whole =~= dir.push('/') + rest);
    lemma_split_concat(dir, rest, '/');
    lemma_split_join(names, '/');
    lemma_split_nonempty(rest, '/');
    lemma_split_nonempty(dir, '/');
    let n = split(dir, '/').len() as int;
    let head = names.take(n);
    let tail = names.skip(n);
    assert(names =~= head + tail);
    assert(head =~= split(dir, '/'));
    assert(tail =~= split(rest, '/'));
    lemma_join_concat(head, tail, '/');
    lemma_join_split(dir, '/');
    lemma_join_split(rest, '/');
}

/// Joining undoes splitting.
pub proof fn lemma_join_split(s: Seq<char>, sep: char)
    ensures
        join(split(s, sep), sep) == s,
    decreases s.len(),
{
    if s.len() > 0 {
        let front = split(s.drop_last(), sep);
        lemma_join_split(s.drop_last(), sep);
        lemma_split_nonempty(s.drop_last(), sep);
        assert(s.drop_last().push(s.last()) =~= s);
        if s.last() == sep {
            let parts = front.push(Seq::<char>::empty());
            assert(parts.drop_last() =~= front);
            assert(join(parts, sep) =~= s);
        } else {
            let parts = front.drop_last().push(front.last().push(s.last()));
            assert(parts.drop_last() =~= front.drop_last());
            assert(join(parts, sep) =~= s);
        }
    }
}

/// Lying below a directory is having its names as a prefix, and the key is spelled by the
/// remaining names.
pub proof fn lemma_below_names(root: Seq<Seq<char>>, path: Seq<Seq<char>>)
    requires
        all_names(root),
        all_names(path),
    ensures
        at_or_below(abs_path(path), abs_path(root)) <==> root.is_prefix_of(path),
        root.is_prefix_of(path) ==> key_of_path(abs_path(root), abs_path(path)) == Some(
            join(path.skip(root.len() as int), '/'),
        ),
        !root.is_prefix_of(path) ==> key_of_path(abs_path(root), abs_path(path)) is None,
{
    let r = abs_path(root);
    let p = abs_path(path);
    lemma_abs_path_normalized(path);
    let tail = path.skip(root.len() as int);
    if root.is_prefix_of(path) {
        assert(path =~= root + tail);
        if tail.len() == 0 {
            assert(path =~= root);
        } else {
            lemma_abs_path_concat(root, tail);
            if r == seq!['/'] {
                assert(p.drop_first() =~= join(tail, '/'));
            } else {
                assert(p =~= r.push('/') + join(tail, '/'));
                assert(p.subrange(0, r.len() as int + 1) =~= r.push('/'));
                assert(p.skip((r.len() + 1) as int) =~= join(tail, '/'));
            }
            assert forall|i: int| 0 <= i < tail.len() implies is_name(#[trigger] tail[i]) by {
                assert(tail[i] == path[i + root.len()]);
            }
            lemma_join_names_nonempty(tail);
            assert(p != r) by {
                if p == r {
                    lemma_abs_path_injective(path, root);
                }
            }
        }
    }
    if root.len() == 0 {
        assert(root.is_prefix_of(path)) by {
            assert(path.subrange(0, 0) =~= root);
        }
    } else {
        lemma_join_names_nonempty(root);
        assert(r.len() > 1);
        if p == r {
            lemma_abs_path_injective(path, root);
            assert(path.subrange(0, path.len() as int) =~= path);
        } else if r.push('/').is_prefix_of(p) {
            let dir = join(root, '/');
            let whole = join(path, '/');
            assert(p.drop_first() =~= whole);
            assert(whole.subrange(0, dir.len() as int + 1) =~= dir.push('/')) by {
                assert(p.subrange(0, r.len() as int + 1) =~= r.push('/'));
                assert forall|i: int| 0 <= i < dir.len() + 1 implies whole[i] == dir.push(
                    '/',
                )[i] by {
                    assert(whole[i] == p[i + 1]);
                    assert(p[i + 1] == r.push('/')[i + 1]);
                }
            }
            assert(path.len() > 0);
            lemma_dir_prefix(dir, path);
            lemma_split_join(root, '/');
            assert(path.subrange(0, root.len() as int) =~= path.take(root.len() as int));
        }
    }
}

/// Containment: whatever path a key resolves to is normalized and lies at or below the
/// root.
pub proof fn law_keys_stay_under_root(root: Seq<char>, key: Seq<char>)
    requires
        is_root(root),
    ensures
        path_of_key(root, key) matches Some(path) ==> at_or_below(path, root) && is_root(path)
            && normalized(path) == Some(path),
{
    let name = trim_slashes(key);
    if name.len() > 0 {
        assert(is_absolute(joined(root, name))) by {
            let names = choose|names: Seq<Seq<char>>|
                #[trigger] all_names(names) && root == abs_path(names);
            assert(root[0] == '/');
            assert(joined(root, name)[0] == '/');
        }
        lemma_normalized_is_root(joined(root, name));
        if let Some(path) = path_of_key(root, key) {
            let names = choose|names: Seq<Seq<char>>|
                #[trigger] all_names(names) && path == abs_path(names);
            lemma_abs_path_normalized(names);
        }
    }
}

/// Round trip: a key made of real names resolves to the root joined with it, and that path
/// has this key.
pub proof fn law_key_round_trip(root: Seq<char>, names: Seq<Seq<char>>)
    requires
        is_root(root),
        all_names(names),
        names.len() > 0,
    ensures
        path_of_key(root, join(names, '/')) == Some(joined(root, join(names, '/'))),
        key_of_path(root, joined(root, join(names, '/'))) == Some(join(names, '/')),
{
    let rn = choose|rn: Seq<Seq<char>>| #[trigger] all_names(rn) && root == abs_path(rn);
    let key = join(names, '/');
    lemma_join_names_nonempty(names);
    lemma_abs_path_concat(rn, names);
    let all = rn + names;
    assert forall|i: int| 0 <= i < all.len() implies is_name(#[trigger] all[i]) by {
        if i < rn.len() {
            assert(all[i] == rn[i]);
        } else {
            assert(all[i] == names[i - rn.len()]);
        }
    }
    lemma_abs_path_normalized(all);
    lemma_below_names(rn, all);
    assert(all.subrange(0, rn.len() as int) =~= rn);
    assert(all.skip(rn.len() as int) =~= names);
}

/// Inverse: the key of a resolved path resolves to that path again; it is empty exactly for
/// the root.
pub proof fn law_path_of_key_of_path(root: Seq<char>, key: Seq<char>)
    requires
        is_root(root),
        path_of_key(root, key) is Some,
    ensures
        ({
            let path = path_of_key(root, key)->0;
            &&& key_of_path(root, path) is Some
            &&& (key_of_path(root, path) == Some(Seq::<char>::empty()) <==> path == root)
            &&& path != root ==> path_of_key(root, key_of_path(root, path)->0) == Some(path)
        }),
{
    let path = path_of_key(root, key)->0;
    law_keys_stay_under_root(root, key);
    let rn = choose|rn: Seq<Seq<char>>| #[trigger] all_names(rn) && root == abs_path(rn);
    let pn = choose|pn: Seq<Seq<char>>| #[trigger] all_names(pn) && path == abs_path(pn);
    lemma_below_names(rn, pn);
    let tail = pn.skip(rn.len() as int);
    assert(pn =~= rn + tail);
    assert forall|i: int| 0 <= i < tail.len() implies is_name(#[trigger] tail[i]) by {
        assert(tail[i] == pn[i + rn.len()]);
    }
    if tail.len() == 0 {
        assert(pn =~= rn);
    } else {
        lemma_join_names_nonempty(tail);
        lemma_abs_path_concat(rn, tail);
        law_key_round_trip(root, tail);
    }
}

/// Normalizing twice is normalizing once.
pub proof fn law_normalize_idempotent(path: Seq<char>)
    ensures
        normalized(path) matches Some(n) ==> normalized(n) == Some(n),
{
    let none = Seq::<Seq<char>>::empty();
    lemma_split_pieces(path, '/');
    lemma_walk_names(none, split(path, '/'), is_absolute(path));
    if let Some(names) = walk(none, split(path, '/'), is_absolute(path)) {
        if is_absolute(path) {
            lemma_abs_path_normalized(names);
        } else if names.len() == 0 {
            assert(join(names, '/') =~= Seq::<char>::empty());
            let lead = split(join(names, '/'), '/');
            assert(lead.drop_last() =~= none);
            assert(walk(none, lead.drop_last(), false) == Some(none));
            assert(names =~= none);
        } else {
            lemma_join_names_nonempty(names);
            lemma_split_join(names, '/');
            lemma_walk_real_names(none, names, false);
            assert(none + names =~= names);
        }
    }
}

/// The directory part of a prefix, with its slash, begins the prefix.
proof fn lemma_dir_part(prefix: Seq<char>)
    ensures
        dir_part(prefix).len() > 0 ==> dir_part(prefix).push('/').is_prefix_of(prefix),
        dir_part(prefix).len() == 0 ==> forall|i: int| 1 <= i < prefix.len() ==> prefix[i] != '/',
        dir_part(prefix).len() > 0 ==> forall|i: int|
            dir_part(prefix).len() < i < prefix.len() ==> prefix[i] != '/',
        dir_part(prefix).len() <= prefix.len(),
    decreases prefix.len(),
{
    if prefix.len() > 0 {
        if prefix.last() == '/' {
            assert(prefix.drop_last().push('/') =~= prefix);
            assert(prefix.subrange(0, prefix.len() as int) =~= prefix);
        } else {
            lemma_dir_part(prefix.drop_last());
            let dir = dir_part(prefix);
            if dir.len() > 0 {
                assert(prefix.drop_last().subrange(0, dir.len() as int + 1) =~= prefix.subrange(
                    0,
                    dir.len() as int + 1,
                ));
                assert forall|i: int| dir.len() < i < prefix.len() implies prefix[i] != '/' by {
                    if i < prefix.len() - 1 {
                        assert(prefix.drop_last()[i] != '/');
                    }
                }
            } else {
                assert forall|i: int| 1 <= i < prefix.len() implies prefix[i] != '/' by {
                    if i < prefix.len() - 1 {
                        assert(prefix.drop_last()[i] != '/');
                    }
                }
            }
        }
    }
}

/// Where a prefix that some key begins with starts its listing: `names` spell the key, the
/// first `n` of them the start directory below the root.
pub open spec fn starts_at(
    root: Seq<char>,
    prefix: Seq<char>,
    names: Seq<Seq<char>>,
    n: int,
) -> bool {
    &&& 0 <= n < names.len()
    &&& start_of(root, prefix) == Some(
        if n == 0 {
            root
        } else {
            joined(root, join(names.take(n), '/'))
        },
    )
}

/// Listing bound: a key that begins with `prefix` lies strictly below the directory that
/// the listing of `prefix` starts at. A prefix that has no such directory matches no key.
pub proof fn law_list_start_covers(root: Seq<char>, prefix: Seq<char>, names: Seq<Seq<char>>)
    requires
        is_root(root),
        all_names(names),
        names.len() > 0,
        prefix.is_prefix_of(join(names, '/')),
    ensures
        exists|n: int| #[trigger] starts_at(root, prefix, names, n),
        start_of(root, prefix) matches Some(start) && at_or_below(
            joined(root, join(names, '/')),
            start,
        ) && joined(root, join(names, '/')) != start,
{
    let key = join(names, '/');
    let dir = dir_part(prefix);
    lemma_dir_part(prefix);
    let rn = choose|rn: Seq<Seq<char>>| #[trigger] all_names(rn) && root == abs_path(rn);
    let all = rn + names;
    assert forall|i: int| 0 <= i < all.len() implies is_name(#[trigger] all[i]) by {
        if i < rn.len() {
            assert(all[i] == rn[i]);
        } else {
            assert(all[i] == names[i - rn.len()]);
        }
    }
    lemma_abs_path_concat(rn, names);
    if dir.len() == 0 {
        assert(starts_at(root, prefix, names, 0));
        lemma_below_names(rn, all);
        assert(all.subrange(0, rn.len() as int) =~= rn);
        if abs_path(all) == root {
            lemma_abs_path_injective(all, rn);
        }
    } else {
        assert(dir.push('/').is_prefix_of(key)) by {
            assert(key.subrange(0, dir.len() as int + 1) =~= prefix.subrange(
                0,
                dir.len() as int + 1,
            )) by {
                assert forall|i: int| 0 <= i < dir.len() + 1 implies key[i] == prefix[i] by {
                    assert(key.subrange(0, prefix.len() as int)[i] == prefix[i]);
                }
            }
        }
        lemma_dir_prefix(dir, names);
        lemma_split_nonempty(dir, '/');
        let n = split(dir, '/').len() as int;
        let head = names.take(n);
        assert forall|i: int| 0 <= i < head.len() implies is_name(#[trigger] head[i]) by {
            assert(head[i] == names[i]);
        }
        law_key_round_trip(root, head);
        assert(starts_at(root, prefix, names, n));
        let sn = rn + head;
        lemma_abs_path_concat(rn, head);
        assert forall|i: int| 0 <= i < sn.len() implies is_name(#[trigger] sn[i]) by {
            assert(sn[i] == all[i]);
        }
        lemma_below_names(sn, all);
        assert(all.subrange(0, sn.len() as int) =~= sn);
        if abs_path(all) == abs_path(sn) {
            lemma_abs_path_injective(all, sn);
        }
    }
}

/// The directory part of a prefix that some key begins with spells the start directory below
/// the root.
pub proof fn lemma_start_dir(
    root: Seq<Seq<char>>,
    prefix: Seq<char>,
    names: Seq<Seq<char>>,
    n: int,
)
    requires
        all_names(root),
        all_names(names),
        0 <= n < names.len(),
        prefix.is_prefix_of(join(names, '/')),
        start_of(abs_path(root), prefix) == Some(abs_path(root + names.take(n))),
    ensures
        dir_part(prefix) == join(names.take(n), '/'),
        n > 0 ==> dir_part(prefix).push('/').is_prefix_of(prefix),
{
    let key = join(names, '/');
    let dir = dir_part(prefix);
    let b = root + names.take(n);
    lemma_dir_part(prefix);
    assert forall|i: int| 0 <= i < b.len() implies is_name(#[trigger] b[i]) by {
        if i < root.len() {
            assert(b[i] == root[i]);
        } else {
            assert(b[i] == names[i - root.len()]);
        }
    }
    if dir.len() == 0 {
        lemma_abs_path_injective(b, root);
        assert(b.len() == root.len());
        assert(dir =~= join(names.take(n), '/'));
    } else {
        assert(dir.push('/').is_prefix_of(key)) by {
            assert forall|i: int| 0 <= i < dir.len() + 1 implies key[i] == prefix[i] by {
                assert(key.subrange(0, prefix.len() as int)[i] == prefix[i]);
            }
            assert(key.subrange(0, dir.len() as int + 1) =~= prefix.subrange(
                0,
                dir.len() as int + 1,
            ));
        }
        lemma_dir_prefix(dir, names);
        lemma_split_nonempty(dir, '/');
        let k = split(dir, '/').len() as int;
        let top = names.take(k);
        assert(all_names(top));
        assert(is_root(abs_path(root)));
        law_key_round_trip(abs_path(root), top);
        lemma_abs_path_concat(root, top);
        let a = root + top;
        assert forall|i: int| 0 <= i < a.len() implies is_name(#[trigger] a[i]) by {
            if i < root.len() {
                assert(a[i] == root[i]);
            } else {
                assert(a[i] == names[i - root.len()]);
            }
        }
        lemma_abs_path_injective(a, b);
        assert(a.len() == b.len());
    }
}

/// A prefix that a key begins with is decided by the first name below the start directory:
/// every leading part of the key that reaches below it begins with the prefix too.
pub proof fn lemma_prefix_decided(
    root: Seq<Seq<char>>,
    prefix: Seq<char>,
    names: Seq<Seq<char>>,
    n: int,
    m: int,
)
    requires
        all_names(root),
        all_names(names),
        0 <= n < m <= names.len(),
        prefix.is_prefix_of(join(names, '/')),
        start_of(abs_path(root), prefix) == Some(abs_path(root + names.take(n))),
    ensures
        prefix.is_prefix_of(join(names.take(m), '/')),
{
    let key = join(names, '/');
    let dir = dir_part(prefix);
    let head = names.take(m);
    let part = join(head, '/');
    lemma_dir_part(prefix);
    lemma_start_dir(root, prefix, names, n);
    assert(all_names(head));
    lemma_join_names_nonempty(head);
    if m < names.len() {
        assert(head + names.skip(m) =~= names);
        lemma_join_concat(head, names.skip(m), '/');
        assert(key == part.push('/') + join(names.skip(m), '/'));
        assert(key[part.len() as int] == '/');
        if prefix.len() > part.len() {
            assert(key.subrange(0, prefix.len() as int)[part.len() as int] == '/');
            assert(prefix[part.len() as int] == '/');
            if n > 0 {
                let top = names.take(n);
                assert(head =~= top + names.subrange(n, m));
                lemma_join_concat(top, names.subrange(n, m), '/');
                assert(part.len() > dir.len());
            }
            assert(false);
        }
        assert(prefix =~= part.subrange(0, prefix.len() as int)) by {
            assert forall|i: int| 0 <= i < prefix.len() implies prefix[i] == part[i] by {
                assert(key.subrange(0, prefix.len() as int)[i] == prefix[i]);
                assert(key[i] == part[i]);
            }
        }
    } else {
        assert(head =~= names);
    }
}

// ---------------------------------------------------------------------------------------
// Laws of the executable functions
// ---------------------------------------------------------------------------------------

/// A path as a walk over names: it is normalized to the names that the walk comes to.
proof fn lemma_normalized_names(path: Seq<char>) -> (names: Option<Seq<Seq<char>>>)
    ensures
        names == walk(Seq::<Seq<char>>::empty(), split(path, '/'), is_absolute(path)),
        names matches Some(n) ==> all_names(n) && normalized(path) == Some(
            if is_absolute(path) {
                abs_path(n)
            } else {
                join(n, '/')
            },
        ),
        names is None ==> normalized(path) is None,
{
    let none = Seq::<Seq<char>>::empty();
    lemma_split_pieces(path, '/');
    lemma_walk_names(none, split(path, '/'), is_absolute(path));
    walk(none, split(path, '/'), is_absolute(path))
}

/// Following one more segment.
proof fn lemma_normalized_step(path: Seq<char>, segment: Seq<char>)
    requires
        path.len() > 0,
        !segment.contains('/'),
    ensures
        is_absolute(path.push('/') + segment) == is_absolute(path),
        walk(
            Seq::<Seq<char>>::empty(),
            split(path.push('/') + segment, '/'),
            is_absolute(path),
        ) == match walk(Seq::<Seq<char>>::empty(), split(path, '/'), is_absolute(path)) {
            Some(names) => enter(names, segment, is_absolute(path)),
            None => None,
        },
{
    let none = Seq::<Seq<char>>::empty();
    let longer = path.push('/') + segment;
    assert(longer[0] == path[0]);
    lemma_split_concat(path, segment, '/');
    lemma_split_single(segment, '/');
    let parts = split(longer, '/');
    assert(parts.drop_last() =~= split(path, '/'));
    assert(parts.last() == segment);
}

/// Paths of names are the same only if the names are, also of relative paths.
proof fn lemma_join_injective(a: Seq<Seq<char>>, b: Seq<Seq<char>>)
    requires
        all_names(a),
        all_names(b),
        join(a, '/') == join(b, '/'),
    ensures
        a == b,
{
    assert(abs_path(a) == abs_path(b));
    lemma_abs_path_injective(a, b);
}

/// A path of one segment: `.` and `..` name the directory that one is in, which at the root has
/// no parent.
pub proof fn law_normalize_one_segment(
    path: &str,
    segment: Seq<char>,
    r: Option<String>,
)
    requires
        call_ensures(normalize_abs, (path,), r),
        !segment.contains('/'),
    ensures
        path@ == segment && (segment.len() == 0 || segment == seq!['.'] || segment == seq!['.', '.'])
            ==> (r matches Some(n) && n@.len() == 0),
        path@ == segment && segment.len() > 0 && segment != seq!['.'] && segment != seq!['.', '.']
            ==> (r matches Some(n) && n@ == segment),
        path@ == seq!['/'] + segment && (segment.len() == 0 || segment == seq!['.']) ==> (
        r matches Some(n) && n@ == seq!['/']),
        path@ == seq!['/'] + segment && segment == seq!['.', '.'] ==> r is None,
        path@ == seq!['/'] + segment && segment.len() > 0 && segment != seq!['.'] && segment != seq![
            '.',
            '.',
        ] ==> (r matches Some(n) && n@ == path@),
{
    let none = Seq::<Seq<char>>::empty();
    let empty = Seq::<char>::empty();
    lemma_split_single(segment, '/');
    if segment.len() == 0 {
        assert(segment =~= empty);
    }
    if path@ == segment {
        if segment.len() > 0 {
            assert(segment.contains(segment[0]));
        }
        let parts = split(path@, '/');
        assert(parts.drop_last() =~= none);
        assert(walk(none, parts.drop_last(), false) == Some(none));
        assert(join(none, '/') =~= empty);
        assert(none.push(segment).len() == 1);
    }
    if path@ == seq!['/'] + segment {
        assert(path@ =~= empty.push('/') + segment);
        lemma_split_concat(empty, segment, '/');
        let parts = split(path@, '/');
        assert(split(empty, '/') =~= seq![empty]);
        assert(parts.drop_last() =~= seq![empty]);
        assert(parts.last() == segment);
        assert(seq![empty].drop_last() =~= none);
        assert(walk(none, none, true) == Some(none));
        assert(walk(none, seq![empty], true) == Some(none));
        assert(abs_path(none) =~= seq!['/']);
        assert(abs_path(none.push(segment)) =~= seq!['/'] + segment);
    }
}

/// A path grows by a segment: an empty one and `.` change nothing, a name is put behind a slash,
/// and `..` takes back the name before it. At the root there is nothing to take back, and a path
/// that left the root does not come back.
pub proof fn law_normalize_next_segment(
    path: &str,
    longer: &str,
    back: &str,
    segment: Seq<char>,
    r: Option<String>,
    next: Option<String>,
    returned: Option<String>,
)
    requires
        call_ensures(normalize_abs, (path,), r),
        path@.len() > 0,
        !segment.contains('/'),
        longer@ == path@.push('/') + segment,
        call_ensures(normalize_abs, (longer,), next),
        back@ == longer@.push('/') + seq!['.', '.'],
        call_ensures(normalize_abs, (back,), returned),
    ensures
        r is None ==> next is None && returned is None,
        r matches Some(n) ==> {
            &&& segment.len() == 0 || segment == seq!['.'] ==> (next matches Some(m) && m@ == n@)
            &&& segment.len() > 0 && segment != seq!['.'] && segment != seq!['.', '.'] ==> {
                &&& next matches Some(m) && m@ == if n@.len() == 0 || n@ == seq!['/'] {
                    n@ + segment
                } else {
                    n@.push('/') + segment
                }
                &&& returned matches Some(m) && m@ == n@
            }
            &&& segment == seq!['.', '.'] && n@ == seq!['/'] ==> next is None
            &&& segment == seq!['.', '.'] && n@.len() == 0 ==> (next matches Some(m) && m@.len()
                == 0)
        },
{
    let abs = is_absolute(path@);
    let names = lemma_normalized_names(path@);
    let after = lemma_normalized_names(longer@);
    let last = lemma_normalized_names(back@);
    lemma_normalized_step(path@, segment);
    let dots = seq!['.', '.'];
    assert(!dots.contains('/')) by {
        if dots.contains('/') {
            let i = choose|i: int| 0 <= i < dots.len() && dots[i] == '/';
        }
    }
    lemma_normalized_step(longer@, dots);
    if segment.len() == 0 {
        assert(segment =~= Seq::<char>::empty());
    }
    if let Some(n) = names {
        let none = Seq::<Seq<char>>::empty();
        if n.len() == 0 {
            assert(n =~= none);
            assert(join(n, '/') =~= Seq::<char>::empty());
            assert(abs_path(n) =~= seq!['/']);
        } else {
            lemma_join_names_nonempty(n);
            assert(abs_path(n).len() > 1);
        }
        if segment.len() > 0 && segment != seq!['.'] && segment != dots {
            let grown = n.push(segment);
            assert(grown.drop_last() =~= n);
            assert(grown.last() == segment);
            if n.len() == 0 {
                assert(join(grown, '/') == segment);
                assert(abs_path(grown) =~= abs_path(n) + segment);
                assert(join(grown, '/') =~= join(n, '/') + segment);
            } else {
                assert(join(grown, '/') == join(n, '/').push('/') + segment);
                assert(abs_path(grown) =~= abs_path(n).push('/') + segment);
            }
        }
    }
}

/// What becomes of a path that goes on depends on what it is normalized to alone.
pub proof fn law_normalize_goes_on_alike(
    a: &str,
    b: &str,
    longer_a: &str,
    longer_b: &str,
    segment: Seq<char>,
    ra: Option<String>,
    rb: Option<String>,
    na: Option<String>,
    nb: Option<String>,
)
    requires
        call_ensures(normalize_abs, (a,), ra),
        call_ensures(normalize_abs, (b,), rb),
        ra matches Some(x) && (rb matches Some(y) && x@ == y@),
        a@.len() > 0,
        b@.len() > 0,
        !segment.contains('/'),
        longer_a@ == a@.push('/') + segment,
        longer_b@ == b@.push('/') + segment,
        call_ensures(normalize_abs, (longer_a,), na),
        call_ensures(normalize_abs, (longer_b,), nb),
    ensures
        na is Some <==> nb is Some,
        na matches Some(x) ==> (nb matches Some(y) && x@ == y@),
{
    let x = lemma_normalized_names(a@);
    let y = lemma_normalized_names(b@);
    lemma_normalized_step(a@, segment);
    lemma_normalized_step(b@, segment);
    let p = lemma_normalized_names(longer_a@);
    let q = lemma_normalized_names(longer_b@);
    let n = x->0;
    let m = y->0;
    if n.len() > 0 {
        lemma_join_names_nonempty(n);
    }
    if m.len() > 0 {
        lemma_join_names_nonempty(m);
    }
    assert(is_absolute(a@) == is_absolute(b@)) by {
        if is_absolute(a@) && !is_absolute(b@) {
            assert(abs_path(n)[0] == '/');
        }
        if is_absolute(b@) && !is_absolute(a@) {
            assert(abs_path(m)[0] == '/');
        }
    }
    if is_absolute(a@) {
        lemma_abs_path_injective(n, m);
    } else {
        lemma_join_injective(n, m);
    }
}

/// A key leads where the path of the root and the key leads, if that is at or below the root, and
/// nowhere else. Slashes that it begins with do not matter; without anything else it leads
/// nowhere.
pub proof fn law_keys_lead_below_the_root(
    mapper: &PathMapper,
    root: &str,
    key: &str,
    slashes: Seq<char>,
    name: Seq<char>,
    whole: &str,
    r: Option<String>,
    n: Option<String>,
)
    requires
        mapper.wf(),
        call_ensures(PathMapper::root, (mapper,), root),
        call_ensures(PathMapper::key_to_hdfs_path, (mapper, key), r),
        key@ == slashes + name,
        forall|i: int| 0 <= i < slashes.len() ==> #[trigger] slashes[i] == '/',
        name.len() > 0 ==> name[0] != '/',
        whole@ == if root@ == seq!['/'] {
            root@ + name
        } else {
            root@.push('/') + name
        },
        call_ensures(normalize_abs, (whole,), n),
    ensures
        name.len() == 0 ==> r is None,
        name.len() > 0 ==> {
            &&& r matches Some(p) ==> (n matches Some(q) && p@ == q@)
            &&& r is Some <==> (n matches Some(q) && (root@ == seq!['/'] || q@ == root@
                || root@.push('/').is_prefix_of(q@)))
        },
{
    lemma_trim_slashes(slashes, name);
    let rn = choose|rn: Seq<Seq<char>>| #[trigger] all_names(rn) && root@ == abs_path(rn);
    assert(root@[0] == '/');
    assert(whole@[0] == '/');
    let names = lemma_normalized_names(whole@);
    if let Some(m) = names {
        assert(abs_path(m)[0] == '/');
    }
}

/// Leading slashes are trimmed, all of them and nothing else.
proof fn lemma_trim_slashes(slashes: Seq<char>, name: Seq<char>)
    requires
        forall|i: int| 0 <= i < slashes.len() ==> #[trigger] slashes[i] == '/',
        name.len() > 0 ==> name[0] != '/',
    ensures
        trim_slashes(slashes + name) == name,
    decreases slashes.len(),
{
    if slashes.len() == 0 {
        assert(slashes + name =~= name);
    } else {
        assert((slashes + name)[0] == slashes[0]);
        assert((slashes + name).drop_first() =~= slashes.drop_first() + name);
        assert forall|i: int| 0 <= i < slashes.drop_first().len() implies
            #[trigger] slashes.drop_first()[i] == '/' by {
            assert(slashes.drop_first()[i] == slashes[i + 1]);
        }
        lemma_trim_slashes(slashes.drop_first(), name);
    }
}

/// The key of a path is what follows the root and a slash in its normalized form; that of the
/// root itself is empty, and a path outside of it has none.
pub proof fn law_paths_have_keys(
    mapper: &PathMapper,
    root: &str,
    path: &str,
    n: Option<String>,
    r: Option<String>,
    rest: Seq<char>,
)
    requires
        mapper.wf(),
        call_ensures(PathMapper::root, (mapper,), root),
        call_ensures(normalize_abs, (path,), n),
        call_ensures(PathMapper::hdfs_path_to_key, (mapper, path), r),
    ensures
        n is None ==> r is None,
        n matches Some(q) ==> {
            &&& q@ == root@ ==> (r matches Some(k) && k@.len() == 0)
            &&& q@ == root@.push('/') + rest && root@ != seq!['/'] ==> (r matches Some(k) && k@
                == rest)
            &&& q@ == seq!['/'] + rest && root@ == seq!['/'] ==> (r matches Some(k) && k@ == rest)
            &&& r matches Some(k) ==> {
                ||| q@ == root@ && k@.len() == 0
                ||| q@ == root@.push('/') + k@
                ||| root@ == seq!['/'] && q@ == seq!['/'] + k@
            }
        },
{
    if let Some(q) = n {
        let lead = root@.push('/');
        if q@ == lead + rest {
            assert(q@.subrange(0, lead.len() as int) =~= lead);
            assert(q@.skip(lead.len() as int) =~= rest);
            assert(q@.len() > root@.len());
        }
        if q@ == seq!['/'] + rest {
            assert(q@.drop_first() =~= rest);
            if q@ == root@ && root@ == seq!['/'] {
                assert(rest.len() == 0);
                assert(rest =~= Seq::<char>::empty());
            }
        }
        if let Some(k) = r {
            if q@ != root@ {
                if root@ == seq!['/'] {
                    assert(q@ =~= seq!['/'] + k@);
                } else {
                    assert(q@ =~= lead + k@);
                }
            }
        }
    }
}

/// Every path below the root is found again under its key.
pub proof fn law_keys_give_their_path_back(
    mapper: &PathMapper,
    path: &str,
    n: Option<String>,
    key: Option<String>,
    again: &str,
    r: Option<String>,
)
    requires
        mapper.wf(),
        call_ensures(normalize_abs, (path,), n),
        call_ensures(PathMapper::hdfs_path_to_key, (mapper, path), key),
        key matches Some(k) && k@.len() > 0 && again@ == k@,
        call_ensures(PathMapper::key_to_hdfs_path, (mapper, again), r),
    ensures
        r matches Some(p) && (n matches Some(q) && p@ == q@),
{
    let root = mapper.root_view();
    let rn = choose|rn: Seq<Seq<char>>| #[trigger] all_names(rn) && root == abs_path(rn);
    let names = lemma_normalized_names(path@);
    let m = names->0;
    assert(root[0] == '/');
    if !is_absolute(path@) {
        if m.len() > 0 {
            lemma_join_names_nonempty(m);
        }
        let q = join(m, '/');
        assert(root.push('/').is_prefix_of(q) ==> q[0] == root.push('/')[0]);
    }
    assert(is_absolute(path@));
    lemma_abs_path_normalized(m);
    lemma_below_names(rn, m);
    let tail = m.skip(rn.len() as int);
    assert(m =~= rn + tail);
    assert forall|i: int| 0 <= i < tail.len() implies is_name(#[trigger] tail[i]) by {
        assert(tail[i] == m[i + rn.len()]);
    }
    assert(tail.len() > 0) by {
        if tail.len() == 0 {
            assert(join(tail, '/') =~= Seq::<char>::empty());
        }
    }
    lemma_abs_path_concat(rn, tail);
    law_key_round_trip(root, tail);
}

/// A key in normal form is put behind the root and a slash, and is the key of what it leads to.
pub proof fn law_normal_keys_round_trip(
    mapper: &PathMapper,
    root: &str,
    key: &str,
    n: Option<String>,
    r: Option<String>,
    path: &str,
    again: Option<String>,
)
    requires
        mapper.wf(),
        call_ensures(PathMapper::root, (mapper,), root),
        key@.len() > 0,
        key@[0] != '/',
        call_ensures(normalize_abs, (key,), n),
        n matches Some(k) && k@ == key@,
        call_ensures(PathMapper::key_to_hdfs_path, (mapper, key), r),
        r matches Some(p) ==> path@ == p@,
        call_ensures(PathMapper::hdfs_path_to_key, (mapper, path), again),
    ensures
        r matches Some(p) && p@ == if root@ == seq!['/'] {
            root@ + key@
        } else {
            root@.push('/') + key@
        },
        again matches Some(k) && k@ == key@,
{
    let names = lemma_normalized_names(key@);
    let m = names->0;
    if m.len() == 0 {
        assert(join(m, '/') =~= Seq::<char>::empty());
    }
    law_key_round_trip(root@, m);
}

/// Where a listing starts: at the directory that the part of the prefix before its last slash
/// leads to, or at the root if there is none.
pub proof fn law_listings_start(
    mapper: &PathMapper,
    root: &str,
    prefix: &str,
    dir: &str,
    rest: Seq<char>,
    start: Option<String>,
    r: Option<String>,
)
    requires
        call_ensures(PathMapper::root, (mapper,), root),
        call_ensures(PathMapper::list_start, (mapper, prefix), start),
        call_ensures(PathMapper::key_to_hdfs_path, (mapper, dir), r),
        !rest.contains('/'),
    ensures
        prefix@ == rest ==> (start matches Some(s) && s@ == root@),
        prefix@ == dir@.push('/') + rest && dir@.len() == 0 ==> (start matches Some(s) && s@
            == root@),
        prefix@ == dir@.push('/') + rest && dir@.len() > 0 ==> (start is Some <==> r is Some) && (
        start matches Some(s) ==> (r matches Some(p) && s@ == p@)),
{
    lemma_dir_part_of(dir@, rest);
}

/// The directory part of a prefix.
proof fn lemma_dir_part_of(dir: Seq<char>, rest: Seq<char>)
    requires
        !rest.contains('/'),
    ensures
        dir_part(rest).len() == 0,
        dir_part(dir.push('/') + rest) == dir,
    decreases rest.len(),
{
    let whole = dir.push('/') + rest;
    if rest.len() == 0 {
        assert(whole =~= dir.push('/'));
        assert(whole.drop_last() =~= dir);
    } else {
        let front = rest.drop_last();
        assert(rest.contains(rest[rest.len() - 1]));
        assert(!front.contains('/')) by {
            if front.contains('/') {
                let i = choose|i: int| 0 <= i < front.len() && front[i] == '/';
                assert(rest[i] == '/');
            }
        }
        lemma_dir_part_of(dir, front);
        assert(whole.last() == rest.last());
        assert(whole.drop_last() =~= dir.push('/') + front);
    }
}

/// A mapper has the configured bucket, and the configured root in normal form: from the root of
/// the filesystem if it does not say so, and the root of the filesystem if it would leave it.
pub proof fn law_mapper_as_configured(
    config: &Config,
    mapper: PathMapper,
    bucket: &str,
    root: &str,
    configured: &str,
    n: Option<String>,
)
    requires
        call_ensures(PathMapper::new, (config,), mapper),
        call_ensures(PathMapper::bucket, (&mapper,), bucket),
        call_ensures(PathMapper::root, (&mapper,), root),
        configured@ == if config.hdfs_root@.len() > 0 && config.hdfs_root@[0] == '/' {
            config.hdfs_root@
        } else {
            seq!['/'] + config.hdfs_root@
        },
        call_ensures(normalize_abs, (configured,), n),
    ensures
        bucket@ == config.bucket_name@,
        n matches Some(s) ==> root@ == s@,
        n is None ==> root@ == seq!['/'],
        mapper.wf(),
{
}

/// A key does not end in a slash.
pub proof fn lemma_key_end(root: Seq<char>, path: Seq<char>)
    requires
        is_root(root),
    ensures
        key_of_path(root, path) matches Some(key) ==> key.len() > 0 ==> key.last() != '/',
{
    if let Some(key) = key_of_path(root, path) {
        if key.len() > 0 {
            let names = lemma_normalized_names(path);
            let m = names->0;
            let n = normalized(path)->0;
            assert(n.last() == key.last());
            assert(join(m, '/').len() > 0 ==> join(m, '/').last() == n.last());
            if m.len() == 0 {
                assert(join(m, '/').len() == 0);
                assert(n.len() <= 1);
                assert(root[0] == '/');
            } else {
                let last = m[m.len() - 1];
                assert(is_name(last));
                if last.len() == 0 {
                    assert(last =~= Seq::<char>::empty());
                }
                lemma_join_names_nonempty(m);
                assert(join(m, '/').last() == last.last());
                assert(last.contains(last[last.len() - 1]));
            }
        }
    }
}

} // verus!
