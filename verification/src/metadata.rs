//! Object metadata from what HDFS reports of a file.

use crate::number::{
    hex_encode, hex_of, lemma_hyphen_splits, lemma_numeral_digits, lemma_numeral_injective,
    numeral, numeral_text,
};
use crate::path::{split, split_text, views};
use crate::text::same_text;
use vstd::prelude::*;

verus! {

/// An object's metadata, derived from HDFS.
#[derive(Debug, Clone, PartialEq, Eq)]
pub struct ObjectMetadata {
    /// Absolute HDFS path of the object.
    pub path: String,
    /// Object length in bytes.
    pub length: u64,
    /// Whether the path is a directory. Directories are never surfaced as objects.
    pub is_dir: bool,
    /// Last-modified time, milliseconds since the Unix epoch.
    pub modification_time: u64,
    /// Raw HDFS checksum bytes, if available.
    pub checksum: Option<Vec<u8>>,
}

/// The ETag of an object whose checksum is not known.
pub open spec fn fallback_etag_of(length: u64, modification_time: u64) -> Seq<char> {
    "hdfs-"@ + numeral(length as nat, 16).push('-') + numeral(modification_time as nat, 16)
}

/// The part of a file name after its last dot. A name without a dot has none, nor has one
/// whose only dot comes first, nor the name of a parent directory.
pub open spec fn extension_of(name: Seq<char>) -> Option<Seq<char>> {
    let parts = split(name, '.');
    if parts.len() < 2 || (parts.len() == 2 && parts[0].len() == 0) || name == seq!['.', '.'] {
        None
    } else {
        Some(parts.last())
    }
}

/// The first media type that the extension table of `mime_guess` has for an extension.
pub uninterp spec fn known_type(extension: Seq<char>) -> Option<Seq<char>>;

/// Look an extension up with `mime_guess::from_ext` and take the `first` guess: a media type,
/// or `None` for an extension that is not in the table. The table is fixed, so the result
/// depends on the extension alone.
#[verifier::external_body]
fn guess_type(extension: &str) -> (guess: Option<String>)
    ensures
        guess is Some <==> known_type(extension@) is Some,
        guess matches Some(t) ==> known_type(extension@) == Some(t@),
{
    mime_guess::from_ext(extension).first().map(|m| m.to_string())
}

/// A guessed content type, or the type of plain bytes.
pub open spec fn type_or_default(guess: Option<Seq<char>>) -> Seq<char> {
    match guess {
        Some(t) => t,
        None => "application/octet-stream"@,
    }
}

/// The content type to report for a guess.
pub fn content_type_from(guess: Option<String>) -> (s: String)
    ensures
        s@ == type_or_default(
            match guess {
                Some(t) => Some(t@),
                None => None,
            },
        ),
{
    match guess {
        Some(t) => t,
        None => "application/octet-stream".to_string(),
    }
}

/// The part of a file name after its last dot.
fn extension<'a>(name: &'a str) -> (r: Option<&'a str>)
    ensures
        r is Some <==> extension_of(name@) is Some,
        r matches Some(e) ==> extension_of(name@) == Some(e@),
{
    let parts = split_text(name, '.');
    proof {
        reveal_strlit("..");
        assert(".."@ =~= seq!['.', '.']);
        assert(parts@.len() == split(name@, '.').len());
        assert(parts@.len() > 0 ==> views(parts@)[0] == parts@[0]@);
    }
    if parts.len() < 2 || same_text(name, "..") {
        return None;
    }
    if parts.len() == 2 && parts[0].is_empty() {
        return None;
    }
    let last = parts[parts.len() - 1];
    assert(views(parts@).last() == last@);
    Some(last)
}

impl ObjectMetadata {
    /// Build metadata from HDFS fields. `checksum` is the raw checksum of the file, where the
    /// HDFS client can tell it.
    pub fn from_hdfs(
        path: String,
        length: u64,
        is_dir: bool,
        modification_time: u64,
        checksum: Option<Vec<u8>>,
    ) -> (m: Self)
        ensures
            m == (ObjectMetadata { path, length, is_dir, modification_time, checksum }),
    {
        ObjectMetadata { path, length, is_dir, modification_time, checksum }
    }

    /// The ETag of the object.
    pub open spec fn etag_text(&self) -> Seq<char> {
        match self.checksum {
            Some(bytes) => hex_of(bytes@),
            None => fallback_etag_of(self.length, self.modification_time),
        }
    }

    /// The ETag of the object: its HDFS checksum in hexadecimal, not an MD5 sum. Without a
    /// checksum it is derived from length and modification time, so that it is still stable
    /// for an unchanged object.
    pub fn etag(&self) -> (s: String)
        ensures
            s@ == self.etag_text(),
    {
        match &self.checksum {
            Some(bytes) => hex_encode(bytes.as_slice()),
            None => fallback_etag(self.length, self.modification_time),
        }
    }

    /// The content type guessed from the file extension, if there is one.
    pub open spec fn guess(&self) -> Option<Seq<char>> {
        match extension_of(split(self.path@, '/').last()) {
            Some(e) => known_type(e),
            None => None,
        }
    }

    /// Best-effort content type from the file extension, with `application/octet-stream`
    /// fallback.
    pub fn content_type(&self) -> (s: String)
        ensures
            s@ == type_or_default(self.guess()),
    {
        let parts = split_text(self.path.as_str(), '/');
        proof {
            crate::path::lemma_split_nonempty(self.path@, '/');
            assert(views(parts@).len() == parts@.len());
            assert(views(parts@).last() == parts@.last()@);
        }
        let name = parts[parts.len() - 1];
        let guess = match extension(name) {
            Some(e) => guess_type(e),
            None => None,
        };
        content_type_from(guess)
    }
}

/// Deterministic ETag used when no HDFS checksum is available. Derived from length and
/// modification time so it is stable for an unchanged object, and shared by object and
/// listing responses so that a key has the same ETag in both.
pub fn fallback_etag(length: u64, modification_time: u64) -> (s: String)
    ensures
        s@ == fallback_etag_of(length, modification_time),
{
    let mut s = "hdfs-".to_string();
    s.append(numeral_text(length as u128, 16).as_str());
    s.append("-");
    s.append(numeral_text(modification_time as u128, 16).as_str());
    proof {
        reveal_strlit("-");
        assert(s@ =~= fallback_etag_of(length, modification_time));
    }
    s
}

/// The fallback ETag changes whenever the length or the modification time does.
pub proof fn law_fallback_etag_distinguishes(l1: u64, t1: u64, l2: u64, t2: u64)
    requires
        fallback_etag_of(l1, t1) == fallback_etag_of(l2, t2),
    ensures
        l1 == l2,
        t1 == t2,
{
    let a = numeral(l1 as nat, 16);
    let b = numeral(t1 as nat, 16);
    let c = numeral(l2 as nat, 16);
    let d = numeral(t2 as nat, 16);
    let lead = "hdfs-"@;
    let n = lead.len() as int;
    lemma_numeral_digits(l1 as nat, 16);
    lemma_numeral_digits(l2 as nat, 16);
    assert(fallback_etag_of(l1, t1).skip(n) =~= a.push('-') + b);
    assert(fallback_etag_of(l2, t2).skip(n) =~= c.push('-') + d);
    lemma_hyphen_splits(a, b, c, d);
    lemma_numeral_injective(l1 as nat, l2 as nat, 16);
    lemma_numeral_injective(t1 as nat, t2 as nat, 16);
}

/// Metadata is what HDFS says.
pub proof fn law_metadata_keeps_its_fields(
    path: String,
    length: u64,
    is_dir: bool,
    modification_time: u64,
    checksum: Option<Vec<u8>>,
    m: ObjectMetadata,
)
    requires
        call_ensures(
            ObjectMetadata::from_hdfs,
            (path, length, is_dir, modification_time, checksum),
            m,
        ),
    ensures
        m.path == path,
        m.length == length,
        m.is_dir == is_dir,
        m.modification_time == modification_time,
        m.checksum == checksum,
{
}

/// The ETag of an object is its checksum in hexadecimal, where it is known; else the one of its
/// length and modification time. Path and kind do not matter to it.
pub proof fn law_etag_source(
    m: &ObjectMetadata,
    s: String,
    bytes: &[u8],
    hex: String,
    fallback: String,
)
    requires
        call_ensures(ObjectMetadata::etag, (m,), s),
        call_ensures(hex_encode, (bytes,), hex),
        call_ensures(fallback_etag, (m.length, m.modification_time), fallback),
    ensures
        m.checksum matches Some(b) ==> (b@ == bytes@ ==> s@ == hex@),
        m.checksum is None ==> s@ == fallback@,
{
}

/// Without a checksum the ETag spells length and modification time out, in hexadecimal.
pub proof fn law_fallback_etag_text(
    length: u64,
    modification_time: u64,
    s: String,
    a: String,
    b: String,
)
    requires
        call_ensures(fallback_etag, (length, modification_time), s),
        call_ensures(numeral_text, (length as u128, 16u8), a),
        call_ensures(numeral_text, (modification_time as u128, 16u8), b),
    ensures
        s@ == "hdfs-"@ + a@ + "-"@ + b@,
{
    reveal_strlit("-");
    assert(s@ =~= "hdfs-"@ + a@ + "-"@ + b@);
}

/// Two files share the ETag of length and modification time just when they share both.
pub proof fn law_fallback_etags_differ(
    l1: u64,
    t1: u64,
    first: String,
    l2: u64,
    t2: u64,
    second: String,
)
    requires
        call_ensures(fallback_etag, (l1, t1), first),
        call_ensures(fallback_etag, (l2, t2), second),
    ensures
        first@ == second@ <==> l1 == l2 && t1 == t2,
{
    if first@ == second@ {
        law_fallback_etag_distinguishes(l1, t1, l2, t2);
    }
}

/// A guess is taken as it is; without one the content is plain bytes.
pub proof fn law_guesses_are_taken(guess: Option<String>, s: String)
    requires
        call_ensures(content_type_from, (guess,), s),
    ensures
        guess matches Some(t) ==> s@ == t@,
        guess is None ==> s@ == "application/octet-stream"@,
{
}

/// The last name of a path.
proof fn lemma_last_name(lead: Seq<char>, name: Seq<char>, path: Seq<char>)
    requires
        !name.contains('/'),
        path == name && lead.len() == 0 || path == lead + name && lead.len() > 0 && lead.last()
            == '/',
    ensures
        split(path, '/').last() == name,
{
    crate::path::lemma_split_single(name, '/');
    if lead.len() > 0 {
        let front = lead.drop_last();
        assert(path =~= front.push('/') + name);
        crate::path::lemma_split_concat(front, name, '/');
    }
}

/// The content type goes by what follows the last dot of the file's name, whatever directory the
/// file is in, whatever stands before the dot, and whatever else is known of the file.
pub proof fn law_content_type_by_extension(
    m: &ObjectMetadata,
    s: String,
    lead: Seq<char>,
    stem: Seq<char>,
    extension: Seq<char>,
)
    requires
        call_ensures(ObjectMetadata::content_type, (m,), s),
        m.path@ == lead + stem.push('.') + extension,
        lead.len() == 0 || lead.last() == '/',
        stem.len() > 0,
        !stem.contains('/'),
        !extension.contains('/'),
        !extension.contains('.'),
        stem != seq!['.'] || extension.len() > 0,
    ensures
        match known_type(extension) {
            Some(t) => s@ == t,
            None => s@ == "application/octet-stream"@,
        },
{
    let name = stem.push('.') + extension;
    assert(m.path@ =~= lead + name);
    assert(!name.contains('/')) by {
        if name.contains('/') {
            let i = choose|i: int| 0 <= i < name.len() && name[i] == '/';
            if i < stem.len() {
                assert(stem[i] == '/');
            } else if i > stem.len() {
                assert(extension[i - stem.len() - 1] == '/');
            }
        }
    }
    if lead.len() == 0 {
        assert(m.path@ =~= name);
    }
    lemma_last_name(lead, name, m.path@);
    crate::path::lemma_split_concat(stem, extension, '.');
    crate::path::lemma_split_single(extension, '.');
    crate::path::lemma_split_nonempty(stem, '.');
    let parts = split(name, '.');
    assert(parts.last() == extension);
    if parts.len() == 2 && parts[0].len() == 0 {
        assert(split(stem, '.').len() == 1);
        crate::path::lemma_join_split(stem, '.');
        assert(split(stem, '.')[0] == parts[0]);
        assert(stem.len() == 0);
    }
    if name == seq!['.', '.'] {
        assert(name[0] == '.');
        assert(stem =~= seq!['.']);
    }
}

/// A file whose name has no dot, but for one that it may begin with, is plain bytes.
pub proof fn law_content_type_without_extension(
    m: &ObjectMetadata,
    s: String,
    lead: Seq<char>,
    name: Seq<char>,
)
    requires
        call_ensures(ObjectMetadata::content_type, (m,), s),
        m.path@ == lead + name || m.path@ == lead + seq!['.'] + name,
        lead.len() == 0 || lead.last() == '/',
        !name.contains('/'),
        !name.contains('.'),
    ensures
        s@ == "application/octet-stream"@,
{
    crate::path::lemma_split_single(name, '.');
    if m.path@ == lead + name {
        if lead.len() == 0 {
            assert(m.path@ =~= name);
        }
        lemma_last_name(lead, name, m.path@);
    } else {
        let none = Seq::<char>::empty();
        let dotted = none.push('.') + name;
        assert(m.path@ =~= lead + dotted);
        if lead.len() == 0 {
            assert(m.path@ =~= dotted);
        }
        assert(!dotted.contains('/')) by {
            if dotted.contains('/') {
                let i = choose|i: int| 0 <= i < dotted.len() && dotted[i] == '/';
                assert(name[i - 1] == '/');
            }
        }
        lemma_last_name(lead, dotted, m.path@);
        crate::path::lemma_split_concat(none, name, '.');
        assert(split(none, '.').len() == 1 && split(none, '.')[0].len() == 0);
        assert(split(dotted, '.').len() == 2);
        assert(split(dotted, '.')[0].len() == 0);
    }
}

} // verus!
