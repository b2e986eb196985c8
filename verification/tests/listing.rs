//! Grouping, pages and tokens.

use base64::engine::general_purpose::STANDARD;
use base64::Engine;
use hdfs_s3_gateway::listing::{list_to_contents, paginate, ListEntry};
use hdfs_s3_gateway::token::{decode_token, encode_token};

fn entry(key: &str) -> ListEntry {
    ListEntry {
        key: key.into(),
        size: 10,
        modification_time: 0,
    }
}

#[test]
fn delimiter_collapses_one_level() {
    let entries = vec![
        entry("a/b/c.txt"),
        entry("a/b/d.txt"),
        entry("a/e.txt"),
        entry("f.txt"),
    ];
    let (contents, common) = list_to_contents(&entries, "", Some("/"));
    let common = common.into_vec();
    // Any key containing a '/' collapses to its first-level prefix "a/".
    // Only "f.txt" (no delimiter) remains a Content.
    assert_eq!(contents, vec![entry("f.txt")]);
    assert_eq!(common, vec!["a/".to_string()]);
}

#[test]
fn deeply_nested_collapses_to_one() {
    let entries = vec![entry("x/y/z/w/file.txt")];
    let (contents, common) = list_to_contents(&entries, "", Some("/"));
    let common = common.into_vec();
    assert!(contents.is_empty());
    // One CommonPrefix at the requested level, not one per nesting level.
    assert_eq!(common, vec!["x/".to_string()]);
}

#[test]
fn prefix_filter() {
    let entries = vec![entry("foo/a.txt"), entry("bar/b.txt")];
    let (contents, _common) = list_to_contents(&entries, "foo/", None);
    assert_eq!(contents, vec![entry("foo/a.txt")]);
}

#[test]
fn prefix_with_delimiter() {
    // The most common real-world shape: `prefix=a/&delimiter=/`. Keys under
    // the prefix split into direct Contents and one-level CommonPrefixes;
    // keys outside the prefix are ignored entirely.
    let entries = vec![
        entry("a/b.txt"),
        entry("a/c/d.txt"),
        entry("a/c/e.txt"),
        entry("ab/x.txt"), // shares the leading 'a' but is NOT under 'a/'
    ];
    let (contents, common) = list_to_contents(&entries, "a/", Some("/"));
    assert_eq!(contents, vec![entry("a/b.txt")]);
    assert_eq!(common.into_vec(), vec!["a/c/".to_string()]);
}

#[test]
fn empty_delimiter_is_no_grouping() {
    // `delimiter=""` must behave exactly like no delimiter: every key under
    // the prefix is a Content, nothing collapses into a CommonPrefix.
    let entries = vec![entry("a/b.txt"), entry("a/c/d.txt")];
    let (contents, common) = list_to_contents(&entries, "a/", Some(""));
    assert_eq!(contents, vec![entry("a/b.txt"), entry("a/c/d.txt")]);
    assert!(common.into_vec().is_empty());
}

#[test]
fn token_round_trip() {
    let key = "some/key/with/slashes";
    let tok = encode_token(key);
    assert_eq!(decode_token(&tok), Some(key.into()));
    // URL-safe unpadded: never contains `+`, `/`, or `=` (transport-safe in
    // URLs, query strings, and XML).
    assert!(
        !tok.contains(['+', '/', '=']),
        "token must be URL-safe: {tok}"
    );
}

#[test]
fn legacy_standard_token_still_decodes() {
    // Tokens in standard, padded base64 decode too.
    let key = "some/key/with/slashes";
    let legacy = STANDARD.encode(key);
    assert_eq!(decode_token(&legacy), Some(key.into()));
}

#[test]
fn invalid_token_is_none() {
    // Corrupted / truncated / garbage tokens must not silently decode to a
    // key (the S3 layer maps `None` to `InvalidToken`, never to "first page").
    assert_eq!(decode_token("%%%not-base64%%%"), None);
    assert_eq!(decode_token("a"), None); // 1-char final quantum: invalid base64
    assert_eq!(decode_token(""), Some(String::new())); // empty key encodes to empty
}

// --- paginate: one-level delimiter pages ------------------------------------------

/// Walk every page of a delimiter'd listing the way a client paginator does,
/// asserting that pagination terminates and yields no duplicate prefixes.
fn walk_pages(
    files: &[ListEntry],
    dirs: &[String],
    prefix: &str,
    max_keys: usize,
) -> Vec<String> {
    let mut all: Vec<String> = Vec::new();
    let mut marker: Option<String> = None;
    let mut pages = 0;
    loop {
        pages += 1;
        assert!(pages <= 16, "pagination must terminate (infinite loop?)");
        let page = paginate(files, dirs, prefix, Some("/"), marker.as_deref(), max_keys);
        for c in &page.common_prefixes {
            assert!(
                !all.contains(c),
                "duplicate common prefix on page {pages}: {c}"
            );
        }
        all.extend(page.common_prefixes.iter().cloned());
        match page.next_token {
            Some(t) => marker = Some(t),
            None => break,
        }
    }
    all
}

#[test]
fn paginate_more_prefixes_than_max_keys_terminates() {
    // More CommonPrefixes than fit a page: the marker filters them like Contents, so the
    // walk advances page by page.
    let dirs: Vec<String> = (1..=5).map(|i| format!("a/part{i}")).collect();
    let all = walk_pages(&[], &dirs, "a/", 2);
    assert_eq!(
        all,
        vec![
            "a/part1/".to_string(),
            "a/part2/".to_string(),
            "a/part3/".to_string(),
            "a/part4/".to_string(),
            "a/part5/".to_string(),
        ]
    );
}

#[test]
fn paginate_mixed_contents_and_prefixes_page_advances() {
    let files = vec![entry("a/x.txt"), entry("a/z.txt")];
    let dirs = vec!["a/m".to_string(), "a/y".to_string()];
    // Sorted interleave of everything under `a/`: a/m/, a/x.txt, a/y/, a/z.txt.
    let page1 = paginate(&files, &dirs, "a/", Some("/"), None, 2);
    assert_eq!(page1.contents, vec![entry("a/x.txt")]);
    assert_eq!(page1.common_prefixes, vec!["a/m/".to_string()]);
    assert!(page1.is_truncated);
    let marker = page1.next_token.clone().unwrap();
    assert_eq!(marker, "a/x.txt");
    // Resuming must skip BOTH the old contents and the old prefixes.
    let page2 = paginate(&files, &dirs, "a/", Some("/"), Some(&marker), 2);
    assert_eq!(page2.contents, vec![entry("a/z.txt")]);
    assert_eq!(page2.common_prefixes, vec!["a/y/".to_string()]);
    assert!(!page2.is_truncated);
    assert!(page2.next_token.is_none());
}

#[test]
fn paginate_empty_dir_is_a_common_prefix() {
    // An empty HDFS directory is surfaced as a CommonPrefix: the one-level listing
    // cannot know it is empty without an extra RPC per directory.
    let files: Vec<ListEntry> = Vec::new();
    let dirs = vec!["a/empty".to_string()];
    let page = paginate(&files, &dirs, "a/", Some("/"), None, 100);
    assert!(page.contents.is_empty());
    assert_eq!(page.common_prefixes, vec!["a/empty/".to_string()]);
    assert!(!page.is_truncated);
}

#[test]
fn paginate_ignores_dirs_outside_prefix() {
    let files: Vec<ListEntry> = vec![entry("a/x.txt")];
    let dirs = vec!["a/keep".to_string(), "b/other".to_string()];
    let page = paginate(&files, &dirs, "a/", Some("/"), None, 100);
    assert_eq!(page.contents, vec![entry("a/x.txt")]);
    assert_eq!(page.common_prefixes, vec!["a/keep/".to_string()]);
}

#[test]
fn paginate_slashless_prefix_collapses() {
    // Prefix without '/': matching keys may live at any depth, so the collapse rule
    // applies to the remainder after the prefix. A file `t/ca` collapses into `t/`
    // (its remainder starts with '/'), a directory `ta` collapses into `ta/`, and
    // `t.txt` (remainder `.txt`) is a Content.
    let files = vec![entry("t/ca"), entry("t.txt")];
    let dirs = vec!["ta".to_string()];
    let page = paginate(&files, &dirs, "t", Some("/"), None, 100);
    assert_eq!(page.contents, vec![entry("t.txt")]);
    assert_eq!(
        page.common_prefixes,
        vec!["t/".to_string(), "ta/".to_string()]
    );
}

#[test]
fn paginate_marker_is_strictly_greater() {
    // '.' (0x2E) sorts before '/' (0x2F): a file `a/sub.txt` sorts BEFORE the
    // CommonPrefix `a/sub/`. A marker of `a/sub/` must therefore drop `a/sub.txt`.
    let files = vec![entry("a/sub.txt"), entry("a/sub/x.txt")];
    let dirs = vec!["a/sub".to_string()];
    let page = paginate(&files, &dirs, "a/", Some("/"), Some("a/sub/"), 100);
    assert!(
        page.contents.is_empty(),
        "contents must be empty: {:?}",
        page.contents
    );
    assert!(
        page.common_prefixes.is_empty(),
        "prefixes must be empty: {:?}",
        page.common_prefixes
    );
}

#[test]
fn paginate_max_keys_zero() {
    // max-keys=0 keeps the existing semantics: an empty page that is still
    // "truncated" when any key exists (a client that asked for nothing must be
    // able to tell there is something to paginate).
    let files = vec![entry("a/x.txt")];
    let dirs = vec!["a/d".to_string()];
    let page = paginate(&files, &dirs, "a/", Some("/"), None, 0);
    assert!(page.contents.is_empty());
    assert!(page.common_prefixes.is_empty());
    assert!(page.is_truncated);
    assert!(page.next_token.is_none());
}

#[test]
fn tokens_are_exact() {
    assert_eq!(encode_token("hi"), "aGk");
    assert_eq!(encode_token("a"), "YQ");
    assert_eq!(encode_token("abc"), "YWJj");
    assert_eq!(encode_token("\u{ff}\u{fe}>>>???"), "w7_Dvj4-Pj8_Pw");
    assert_eq!(decode_token("aGk="), Some("hi".into()));
    assert_eq!(decode_token("aGl"), None); // non-zero trailing bits
    assert_eq!(decode_token("_w"), None); // not UTF-8
    assert_eq!(decode_token("/w=="), None); // standard form, not UTF-8 either
    assert_eq!(decode_token("w78="), Some("\u{ff}".into()));
}

#[test]
fn a_delimiter_may_be_any_text() {
    let entries = vec![entry("a--b"), entry("a-b"), entry("x--y--z")];
    let (contents, common) = list_to_contents(&entries, "", Some("--"));
    assert_eq!(contents, vec![entry("a-b")]);
    assert_eq!(common.into_vec(), vec!["a--".to_string(), "x--".to_string()]);
}

#[test]
fn contents_of_equal_keys_share_a_page() {
    let files = vec![entry("b"), entry("a"), entry("a"), entry("c")];
    let page = paginate(&files, &[], "", Some("/"), None, 1);
    assert_eq!(page.contents, vec![entry("a"), entry("a")]);
    assert!(page.is_truncated);
    assert_eq!(page.next_token, Some("a".into()));
    let rest = paginate(&files, &[], "", Some("/"), Some("a"), 10);
    assert_eq!(rest.contents, vec![entry("b"), entry("c")]);
    assert!(!rest.is_truncated);
}

#[test]
fn pages_tile_what_is_listed() {
    let files = vec![entry("p/9"), entry("p/1"), entry("p/5"), entry("q")];
    let dirs = vec!["p/3".to_string(), "p/7".to_string(), "p".to_string()];
    let whole = paginate(&files, &dirs, "p", Some("/"), None, 100);
    assert_eq!(whole.contents, Vec::new());
    assert_eq!(whole.common_prefixes, vec!["p/".to_string()]);
    let whole = paginate(&files, &dirs, "p/", Some("/"), None, 100);
    let (mut contents, mut prefixes) = (Vec::new(), Vec::new());
    let mut marker: Option<String> = None;
    loop {
        let page = paginate(&files, &dirs, "p/", Some("/"), marker.as_deref(), 2);
        contents.extend(page.contents);
        prefixes.extend(page.common_prefixes);
        match page.next_token {
            Some(t) => {
                if let Some(m) = &marker {
                    assert!(t > *m);
                }
                marker = Some(t);
            }
            None => break,
        }
    }
    assert_eq!(contents, whole.contents);
    assert_eq!(prefixes, whole.common_prefixes);
}

#[test]
fn prefixes_are_kept_sorted_and_once() {
    let mut set = hdfs_s3_gateway::listing::CommonPrefixSet::default();
    for p in ["b/", "a/", "c/", "a/", "\u{10000}/", "\u{e000}/"] {
        set.insert(p.to_string());
    }
    assert_eq!(set.into_vec(), vec!["a/", "b/", "c/", "\u{e000}/", "\u{10000}/"]);
}

#[test]
fn directories_group_at_the_delimiter() {
    let group = |dirs: &[&str], prefix: &str, delimiter: Option<&str>| {
        let dirs: Vec<String> = dirs.iter().map(|d| d.to_string()).collect();
        let page = paginate(&[], &dirs, prefix, delimiter, None, 100);
        assert!(page.contents.is_empty());
        assert!(!page.is_truncated);
        page.common_prefixes
    };
    assert_eq!(group(&["a-b"], "", Some("-")), vec!["a-"]);
    assert_eq!(group(&["a-b"], "a-", Some("-")), vec!["a-b/"]);
    assert_eq!(group(&["a-b", "a-c", "d"], "", Some("-")), vec!["a-", "d/"]);
    assert_eq!(group(&["x/y-z"], "x/", Some("-")), vec!["x/y-"]);
    assert_eq!(group(&["ab"], "a", Some("b/")), vec!["ab/"]);
    assert_eq!(group(&["a/b"], "", Some("/")), vec!["a/"]);
    // Where keys are not grouped, directories still are, at the next slash.
    assert_eq!(group(&["a/b"], "", Some("")), vec!["a/"]);
    assert_eq!(group(&["a/b"], "", None), vec!["a/"]);
    assert_eq!(group(&["a/b"], "a/", None), vec!["a/b/"]);
}

#[test]
fn a_directory_and_its_files_share_a_group() {
    let files = vec![entry("a-b/x")];
    let dirs = vec!["a-b".to_string()];
    let page = paginate(&files, &dirs, "", Some("-"), None, 100);
    assert!(page.contents.is_empty());
    assert_eq!(page.common_prefixes, vec!["a-".to_string()]);
}

#[test]
fn two_limited_pages_make_one() {
    let files: Vec<ListEntry> = ["p/1", "p/4", "p/5", "p/8"].iter().map(|k| entry(k)).collect();
    let dirs: Vec<String> = ["p/2", "p/3", "p/6"].iter().map(|d| d.to_string()).collect();
    for n in 1..=3 {
        let first = paginate(&files, &dirs, "p/", Some("/"), None, n);
        let token = first.next_token.clone().unwrap();
        let second = paginate(&files, &dirs, "p/", Some("/"), Some(&token), n);
        let both = paginate(&files, &dirs, "p/", Some("/"), None, 2 * n);
        let mut contents = first.contents.clone();
        contents.extend(second.contents.clone());
        let mut prefixes = first.common_prefixes.clone();
        prefixes.extend(second.common_prefixes.clone());
        assert_eq!(both.contents, contents);
        assert_eq!(both.common_prefixes, prefixes);
        assert_eq!(both.is_truncated, second.is_truncated);
        assert_eq!(both.next_token, second.next_token);
        assert!(second.contents.len() + second.common_prefixes.len() > 0);
        assert!(first.contents.iter().all(|e| e.key <= token));
        assert!(second.contents.iter().all(|e| e.key > token));
        assert!(second.common_prefixes.iter().all(|p| *p > token));
    }
}
