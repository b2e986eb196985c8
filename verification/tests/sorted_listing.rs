//! The lazy merge, driven over an in-memory namespace.

use std::collections::HashMap;
use std::sync::{Arc, Mutex};

use hdfs_s3_gateway::config::Config;
use hdfs_s3_gateway::error::{HdfsError, HdfsErrorKind};
use hdfs_s3_gateway::listing::ListEntry;
use hdfs_s3_gateway::path::PathMapper;
use hdfs_s3_gateway::sorted_listing::{
    dir_children_all_before, FileStatus, PageStep, PullStep, SortedListing,
};

/// How a fake directory listing should fail.
#[derive(Clone, Copy, PartialEq, Debug)]
enum FakeErr {
    NotFound,
    /// An upstream NameNode access-control denial (e.g. `AccessControlException`).
    Denied,
    Other,
}

/// An in-memory namespace. Records every directory it was asked to list, so that tests can
/// assert which directories were opened.
#[derive(Default)]
struct FakeFs {
    children: HashMap<String, Vec<FileStatus>>,
    errors: HashMap<String, FakeErr>,
    listed: Arc<Mutex<Vec<String>>>,
}

impl FakeFs {
    fn list_dir(&self, dir: String) -> Result<Vec<FileStatus>, HdfsError> {
        self.listed.lock().unwrap().push(dir.clone());
        match self.errors.get(&dir).copied() {
            Some(FakeErr::NotFound) => Err(HdfsError {
                kind: HdfsErrorKind::FileNotFound,
                text: dir,
            }),
            Some(FakeErr::Denied) => Err(HdfsError {
                kind: HdfsErrorKind::RPCError(
                    "org.apache.hadoop.security.AccessControlException".into(),
                ),
                text: format!("Permission denied: user=gw, path={dir}"),
            }),
            Some(FakeErr::Other) => Err(HdfsError {
                kind: HdfsErrorKind::InternalError,
                text: "boom".into(),
            }),
            None => Ok(self.children.get(&dir).cloned().unwrap_or_default()),
        }
    }
}

/// A listing with the namespace that answers it.
struct Driven {
    fs: Arc<FakeFs>,
    listing: SortedListing,
}

impl Driven {
    fn collect_page(&mut self, max_keys: usize) -> Result<(Vec<ListEntry>, bool), HdfsError> {
        loop {
            match self.listing.collect_page(max_keys) {
                PageStep::List(dir) => {
                    let answer = self.fs.list_dir(dir);
                    self.listing.supply(answer)?;
                }
                PageStep::Page(entries, truncated) => return Ok((entries, truncated)),
            }
        }
    }
}

fn file(path: &str) -> FileStatus {
    FileStatus {
        path: path.into(),
        length: 7,
        isdir: false,
        modification_time: 42,
    }
}

fn dir(path: &str) -> FileStatus {
    FileStatus {
        isdir: true,
        ..file(path)
    }
}

fn mapper() -> PathMapper {
    let config = Config {
        namenode_uri: "hdfs://localhost:8020".into(),
        hdfs_root: "/data".into(),
        bucket_name: "hdfs".into(),
        listen_addr: "0.0.0.0:8080".into(),
        max_concurrent_requests: 2048,
        expose_upstream_errors: false,
        hdfs_options: HashMap::new(),
        hdfs_config_dir: None,
        hdfs_user: None,
        auth_secret: None,
    };
    PathMapper::new(&config)
}

fn new_listing(fs: Arc<FakeFs>, prefix: &str, after: Option<String>) -> Driven {
    Driven {
        fs,
        listing: SortedListing::new("/data".into(), prefix.into(), after, mapper()),
    }
}

fn keys(page: &[ListEntry]) -> Vec<String> {
    page.iter().map(|e| e.key.clone()).collect()
}

/// A small tree under the root `/data`:
/// `a.txt`, `b/1.txt`, `b/2.txt`, `b2.txt`, `c/1.txt`, `d.txt`, and an empty
/// directory `e/` (which must contribute nothing to a flat listing).
fn tree() -> Arc<FakeFs> {
    Arc::new(FakeFs {
        children: HashMap::from([
            (
                "/data".into(),
                vec![
                    file("/data/a.txt"),
                    dir("/data/b"),
                    file("/data/b2.txt"),
                    dir("/data/c"),
                    file("/data/d.txt"),
                    dir("/data/e"),
                ],
            ),
            (
                "/data/b".into(),
                vec![file("/data/b/1.txt"), file("/data/b/2.txt")],
            ),
            ("/data/c".into(), vec![file("/data/c/1.txt")]),
        ]),
        ..Default::default()
    })
}

#[test]
fn merges_directories_in_global_byte_order() {
    let fs = tree();
    let mut listing = new_listing(fs.clone(), "", None);
    let (page, truncated) = listing.collect_page(100).unwrap();
    assert!(!truncated);
    assert_eq!(
        keys(&page),
        vec![
            "a.txt", "b/1.txt", "b/2.txt",
            "b2.txt", // 'b/' (0x2F) sorts before "b2" (0x32)
            "c/1.txt", "d.txt",
        ]
    );
    // The empty directory was opened but yielded nothing.
    assert!(fs.listed.lock().unwrap().contains(&"/data/e".to_string()));
}

#[test]
fn emits_utf8_byte_order_not_java_string_order() {
    // HDFS returns names in Java String order (UTF-16 code units): U+10000
    // (surrogate D800) sorts BEFORE U+E000. UTF-8 bytes put U+E000 (EE...) first.
    // The per-directory re-sort must restore S3's UTF-8 binary order.
    let fs = Arc::new(FakeFs {
        children: HashMap::from([(
            "/data".into(),
            vec![file("/data/\u{10000}.txt"), file("/data/\u{e000}.txt")],
        )]),
        ..Default::default()
    });
    let mut listing = new_listing(fs, "", None);
    let (page, _truncated) = listing.collect_page(10).unwrap();
    assert_eq!(keys(&page), vec!["\u{e000}.txt", "\u{10000}.txt"]);
}

#[test]
fn prefix_filters_and_prunes_unmatchable_directories() {
    let fs = tree();
    let mut listing = new_listing(fs.clone(), "b", None);
    let (page, truncated) = listing.collect_page(100).unwrap();
    assert!(!truncated);
    assert_eq!(keys(&page), vec!["b/1.txt", "b/2.txt", "b2.txt"]);

    // Pruning contract: directories whose key cannot match the prefix must
    // never be opened (nothing under them can match either).
    let listed = fs.listed.lock().unwrap();
    assert!(listed.contains(&"/data".to_string()));
    assert!(listed.contains(&"/data/b".to_string()));
    assert!(
        !listed.iter().any(|d| d == "/data/c" || d == "/data/e"),
        "unmatchable directories must not be listed, got: {listed:?}"
    );
}

#[test]
fn continuation_marker_skips_keys_in_byte_order() {
    let fs = tree();
    let mut listing = new_listing(fs, "", Some("b/1.txt".into()));
    let (page, truncated) = listing.collect_page(100).unwrap();
    assert!(!truncated);
    // a.txt and b/1.txt itself are <= the marker; everything after survives.
    assert_eq!(keys(&page), vec!["b/2.txt", "b2.txt", "c/1.txt", "d.txt"]);
}

#[test]
fn pages_concatenate_exactly_to_the_full_sorted_listing() {
    // The pagination contract: walking pages with continuation tokens must
    // yield every key exactly once, in order, and terminate.
    let full: Vec<String> = vec!["a.txt", "b/1.txt", "b/2.txt", "b2.txt", "c/1.txt", "d.txt"]
        .into_iter()
        .map(String::from)
        .collect();

    let mut token: Option<String> = None;
    let mut collected: Vec<String> = Vec::new();
    loop {
        let mut listing = new_listing(tree(), "", token.clone());
        let (page, truncated) = listing.collect_page(2).unwrap();
        collected.extend(keys(&page));
        match truncated {
            true => token = page.last().map(|e| e.key.clone()),
            false => break,
        }
    }
    assert_eq!(
        collected, full,
        "pages must tile the sorted listing exactly"
    );
}

#[test]
fn resume_skips_directories_entirely_before_marker() {
    // Page 1 served a/1.txt, b/1.txt, c/1.txt (marker `c/1.txt`). On resume,
    // a/ and b/ provably contain only keys <= the marker, so they must not be
    // opened: the only listings are the root and the marker's own directory.
    let fs = Arc::new(FakeFs {
        children: HashMap::from([
            (
                "/data".into(),
                vec![dir("/data/a"), dir("/data/b"), dir("/data/c")],
            ),
            ("/data/a".into(), vec![file("/data/a/1.txt")]),
            ("/data/b".into(), vec![file("/data/b/1.txt")]),
            (
                "/data/c".into(),
                vec![file("/data/c/1.txt"), file("/data/c/2.txt")],
            ),
        ]),
        ..Default::default()
    });
    let mut listing = new_listing(fs.clone(), "", Some("c/1.txt".into()));
    let (page, truncated) = listing.collect_page(100).unwrap();
    assert!(!truncated);
    assert_eq!(keys(&page), vec!["c/2.txt"]);
    let listed = fs.listed.lock().unwrap();
    assert!(listed.contains(&"/data".to_string()));
    assert!(listed.contains(&"/data/c".to_string()));
    assert!(
        !listed.iter().any(|d| d == "/data/a" || d == "/data/b"),
        "directories wholly before the marker must not be listed, got: {listed:?}"
    );
}

#[test]
fn marker_inside_directory_still_lists_it() {
    // Marker `b/1.txt` lies inside b/'s key range: b's children straddle it
    // (b/2.txt must be emitted), so /data/b must still be opened. a/ is
    // wholly before the marker and stays skipped.
    let fs = Arc::new(FakeFs {
        children: HashMap::from([
            (
                "/data".into(),
                vec![dir("/data/a"), dir("/data/b"), dir("/data/c")],
            ),
            ("/data/a".into(), vec![file("/data/a/1.txt")]),
            (
                "/data/b".into(),
                vec![file("/data/b/1.txt"), file("/data/b/2.txt")],
            ),
            ("/data/c".into(), vec![file("/data/c/1.txt")]),
        ]),
        ..Default::default()
    });
    let mut listing = new_listing(fs.clone(), "", Some("b/1.txt".into()));
    let (page, truncated) = listing.collect_page(100).unwrap();
    assert!(!truncated);
    assert_eq!(keys(&page), vec!["b/2.txt", "c/1.txt"]);
    let listed = fs.listed.lock().unwrap();
    assert!(listed.contains(&"/data/b".to_string()));
    assert!(
        !listed.iter().any(|d| d == "/data/a"),
        "a/ is wholly before the marker, got: {listed:?}"
    );
}

#[test]
fn marker_under_sibling_file_still_skips_directory() {
    // The subtle case: marker `ab` (a root file) extends the directory key
    // `a`, yet every child `a/...` sorts before `ab` ('/' 0x2F < 'b' 0x62).
    // The directory must be skipped, not listed — only the root is opened.
    let fs = Arc::new(FakeFs {
        children: HashMap::from([
            ("/data".into(), vec![dir("/data/a"), file("/data/ab")]),
            ("/data/a".into(), vec![file("/data/a/1.txt")]),
        ]),
        ..Default::default()
    });
    let mut listing = new_listing(fs.clone(), "", Some("ab".into()));
    let (page, truncated) = listing.collect_page(100).unwrap();
    assert!(!truncated);
    assert!(page.is_empty()); // a/1.txt and ab itself are <= the marker
    let listed = fs.listed.lock().unwrap();
    assert_eq!(
        listed.as_slice(),
        &["/data".to_string()],
        "only the root may be listed"
    );
}

#[test]
fn dir_children_all_before_cases() {
    // The predicate is exact: skip only when every child (`key + "/" + name`)
    // sorts before the marker.
    assert!(dir_children_all_before("a", "b/1.txt")); // decided within the key
    assert!(dir_children_all_before("a", "ab")); // '/' < 'b' at the boundary
    assert!(dir_children_all_before("a", "aX")); // '/' < 'X'
    assert!(dir_children_all_before("a", "a0")); // '/' < '0' (0x30)
    assert!(!dir_children_all_before("a", "a.")); // '.' (0x2E) < '/': children sort after
    assert!(!dir_children_all_before("a", "a")); // marker == dir key
    assert!(!dir_children_all_before("a", "a/")); // marker under the dir: straddle
    assert!(!dir_children_all_before("a", "a/1.txt")); // straddle
    assert!(!dir_children_all_before("ab", "a")); // marker prefix of dir key
    assert!(!dir_children_all_before("b", "aZ")); // dir sorts after the marker
    assert!(!dir_children_all_before("a", "")); // empty marker
    assert!(dir_children_all_before("ab", "ac")); // decided within the key
}

#[test]
fn empty_directories_yield_nothing_but_are_still_openable() {
    // Covered implicitly by `merges_directories_in_global_byte_order`; keep an
    // explicit, focused assertion for the flat path: an empty dir contributes
    // no keys even when it is the only content of its parent.
    let fs = Arc::new(FakeFs {
        children: HashMap::from([("/data".into(), vec![dir("/data/e")])]),
        ..Default::default()
    });
    let mut listing = new_listing(fs, "", None);
    let (page, truncated) = listing.collect_page(10).unwrap();
    assert!(page.is_empty());
    assert!(!truncated);
}

#[test]
fn vanished_subdirectory_is_skipped_not_fatal() {
    // The parent listing contains `b/`, but `b/` is gone by the time we list
    // it (concurrent deletion). The merge must skip it and still return the
    // rest, not fail the whole listing and not silently empty it.
    let fs = Arc::new(FakeFs {
        children: HashMap::from([
            (
                "/data".into(),
                vec![file("/data/a.txt"), dir("/data/b"), file("/data/d.txt")],
            ),
            ("/data/b".into(), vec![file("/data/b/1.txt")]),
        ]),
        errors: HashMap::from([("/data/b".into(), FakeErr::NotFound)]),
        ..Default::default()
    });
    let mut listing = new_listing(fs, "", None);
    let (page, truncated) = listing.collect_page(100).unwrap();
    assert!(!truncated);
    assert_eq!(keys(&page), vec!["a.txt", "d.txt"]);
}

#[test]
fn unreadable_subdirectory_is_skipped_not_fatal() {
    // The gateway's HDFS user cannot read `b/` (the
    // NameNode answers `getListing(b)` with AccessControlException). The flat
    // listing must still serve everything else — a single unreadable subtree
    // must not fail the whole ListObjectsV2 (and the directory itself is
    // never an object, so there is nothing to surface for it).
    let fs = Arc::new(FakeFs {
        children: HashMap::from([
            (
                "/data".into(),
                vec![file("/data/a.txt"), dir("/data/b"), file("/data/d.txt")],
            ),
            ("/data/b".into(), vec![file("/data/b/1.txt")]),
        ]),
        errors: HashMap::from([("/data/b".into(), FakeErr::Denied)]),
        ..Default::default()
    });
    let mut listing = new_listing(fs, "", None);
    let (page, truncated) = listing.collect_page(100).unwrap();
    assert!(!truncated);
    assert_eq!(keys(&page), vec!["a.txt", "d.txt"]);
}

#[test]
fn unreadable_subdirectory_after_skipped_files_still_continues() {
    // The denied directory sorts between two readable files: the merge pops
    // it mid-page, skips it, and still yields the files after it.
    let fs = Arc::new(FakeFs {
        children: HashMap::from([
            (
                "/data".into(),
                vec![file("/data/a.txt"), dir("/data/b"), file("/data/c.txt")],
            ),
            ("/data/b".into(), vec![file("/data/b/1.txt")]),
        ]),
        errors: HashMap::from([("/data/b".into(), FakeErr::Denied)]),
        ..Default::default()
    });
    let mut listing = new_listing(fs, "", None);
    let (page, truncated) = listing.collect_page(100).unwrap();
    assert!(!truncated);
    assert_eq!(keys(&page), vec!["a.txt", "c.txt"]);
}

#[test]
fn unreadable_start_directory_still_propagates() {
    // The start directory is the prefix's own directory. If IT cannot be
    // listed there is nothing to serve, and S3 semantics say answer with 403
    // AccessDenied — not a misleading empty page that hides the problem.
    let fs = Arc::new(FakeFs {
        children: HashMap::from([("/data".into(), vec![file("/data/a.txt")])]),
        errors: HashMap::from([("/data".into(), FakeErr::Denied)]),
        ..Default::default()
    });
    let mut listing = new_listing(fs, "", None);
    let err = listing.collect_page(100).unwrap_err();
    assert!(
        matches!(err.kind, HdfsErrorKind::RPCError(exception) if exception.ends_with("AccessControlException"))
    );
}

#[test]
fn missing_start_directory_is_an_empty_listing() {
    let fs = Arc::new(FakeFs {
        errors: HashMap::from([("/data".into(), FakeErr::NotFound)]),
        ..Default::default()
    });
    let mut listing = new_listing(fs, "", None);
    let (page, truncated) = listing.collect_page(100).unwrap();
    assert!(page.is_empty());
    assert!(!truncated);
}

#[test]
fn other_errors_propagate_when_reached() {
    // `/data/c` fails with a non-FileNotFound error. A full pull must surface
    // it; a page that ends before `c` is popped must succeed lazily (the error
    // only bites the page that actually reaches it).
    let fs = Arc::new(FakeFs {
        children: HashMap::from([
            ("/data".into(), vec![file("/data/a.txt"), dir("/data/c")]),
            ("/data/c".into(), vec![file("/data/c/1.txt")]),
        ]),
        errors: HashMap::from([("/data/c".into(), FakeErr::Other)]),
        ..Default::default()
    });

    // Page 1 (max_keys=2) emits a.txt, then the truncation probe pulls the next
    // entry — which is the directory /data/c → the error surfaces.
    let mut listing = new_listing(fs.clone(), "", None);
    let err = listing.collect_page(2).unwrap_err();
    assert!(matches!(err.kind, HdfsErrorKind::InternalError));
}

#[test]
fn max_keys_zero_probes_truncation_only() {
    let fs = tree();
    let mut listing = new_listing(fs.clone(), "", None);
    let (page, truncated) = listing.collect_page(0).unwrap();
    assert!(page.is_empty());
    assert!(
        truncated,
        "keys exist, so max_keys=0 must still report truncation"
    );

    let empty = Arc::new(FakeFs::default());
    let mut listing = new_listing(empty, "", None);
    let (page, truncated) = listing.collect_page(0).unwrap();
    assert!(page.is_empty());
    assert!(!truncated);
}

#[test]
fn entries_carry_size_and_time() {
    let mut listing = new_listing(tree(), "d", None);
    let (page, _truncated) = listing.collect_page(10).unwrap();
    assert_eq!(
        page,
        vec![ListEntry {
            key: "d.txt".into(),
            size: 7,
            modification_time: 42,
        }]
    );
}

#[test]
fn asking_again_before_an_answer_repeats_the_directory() {
    let mut listing = SortedListing::new("/data".into(), String::new(), None, mapper());
    assert_eq!(listing.collect_page(5), PageStep::List("/data".into()));
    assert_eq!(listing.collect_page(5), PageStep::List("/data".into()));
}

#[test]
fn an_answer_nobody_waits_for_changes_nothing() {
    let mut listing = SortedListing::new("/data".into(), String::new(), None, mapper());
    assert!(listing.supply(Ok(vec![file("/data/x")])).is_ok());
    assert_eq!(listing.collect_page(5), PageStep::List("/data".into()));
    assert!(listing.supply(Ok(Vec::new())).is_ok());
    assert_eq!(listing.collect_page(5), PageStep::Page(Vec::new(), false));
}

#[test]
fn a_page_in_progress_keeps_its_limit() {
    let mut listing = SortedListing::new("/data".into(), String::new(), None, mapper());
    assert_eq!(listing.collect_page(1), PageStep::List("/data".into()));
    assert!(listing
        .supply(Ok(vec![file("/data/b"), file("/data/a"), file("/data/c")]))
        .is_ok());
    match listing.collect_page(100) {
        PageStep::Page(entries, truncated) => {
            assert_eq!(keys(&entries), vec!["a"]);
            assert!(truncated);
        }
        other => panic!("expected a page, got {other:?}"),
    }
}

#[test]
fn a_failed_listing_drops_the_page_and_goes_on() {
    let fs = Arc::new(FakeFs {
        children: HashMap::from([(
            "/data".into(),
            vec![file("/data/a"), dir("/data/b"), file("/data/c")],
        )]),
        errors: HashMap::from([("/data/b".into(), FakeErr::Other)]),
        ..Default::default()
    });
    let mut listing = new_listing(fs, "", None);
    assert!(listing.collect_page(10).is_err());
    let (page, truncated) = listing.collect_page(10).unwrap();
    assert_eq!(keys(&page), vec!["c"]);
    assert!(!truncated);
}

#[test]
fn directories_beyond_the_page_are_not_opened() {
    let fs = tree();
    let mut listing = new_listing(fs.clone(), "", None);
    let (page, truncated) = listing.collect_page(1).unwrap();
    assert_eq!(keys(&page), vec!["a.txt"]);
    assert!(truncated);
    // The key after the page is `b/1.txt`: nothing that sorts after it was listed.
    assert_eq!(
        fs.listed.lock().unwrap().as_slice(),
        &["/data".to_string(), "/data/b".to_string()]
    );
}

#[test]
fn directories_are_opened_once_and_in_order() {
    let fs = tree();
    let mut listing = new_listing(fs.clone(), "", None);
    listing.collect_page(100).unwrap();
    assert_eq!(
        fs.listed.lock().unwrap().as_slice(),
        &[
            "/data".to_string(),
            "/data/b".to_string(),
            "/data/c".to_string(),
            "/data/e".to_string()
        ]
    );
}

#[test]
fn a_listing_does_not_depend_on_the_order_of_answers() {
    let forward = vec![file("/data/a"), dir("/data/b"), file("/data/c")];
    let mut backward = forward.clone();
    backward.reverse();
    let page = |children: Vec<FileStatus>| {
        let fs = Arc::new(FakeFs {
            children: HashMap::from([
                ("/data".into(), children),
                ("/data/b".into(), vec![file("/data/b/x")]),
            ]),
            ..Default::default()
        });
        new_listing(fs, "", None).collect_page(2).unwrap()
    };
    assert_eq!(page(forward.clone()), page(backward));
    assert_eq!(keys(&page(forward).0), vec!["a", "b/x"]);
}

#[test]
fn pulls_ask_in_turn_and_end() {
    let fs = tree();
    let mut listing = SortedListing::new("/data".into(), String::new(), None, mapper());
    let mut trace = Vec::new();
    loop {
        match listing.next_entry() {
            PullStep::List(dir) => {
                trace.push(format!("? {dir}"));
                let answer = fs.list_dir(dir);
                assert!(listing.supply(answer).is_ok());
            }
            PullStep::Entry(e) => trace.push(e.key),
            PullStep::Done => break,
        }
    }
    assert_eq!(
        trace,
        vec![
            "? /data", "a.txt", "? /data/b", "b/1.txt", "b/2.txt", "b2.txt", "? /data/c",
            "c/1.txt", "d.txt", "? /data/e",
        ]
    );
    // After the end nothing is asked for and nothing found.
    assert_eq!(listing.next_entry(), PullStep::Done);
    assert_eq!(listing.next_entry(), PullStep::Done);
    assert_eq!(listing.collect_page(3), PageStep::Page(Vec::new(), false));
}

#[test]
fn a_pull_before_an_answer_repeats_the_directory() {
    let mut listing = SortedListing::new("/data".into(), String::new(), None, mapper());
    assert_eq!(listing.next_entry(), PullStep::List("/data".into()));
    assert_eq!(listing.next_entry(), PullStep::List("/data".into()));
    assert!(listing.supply(Ok(vec![dir("/data/b"), file("/data/a")])).is_ok());
    assert!(matches!(listing.next_entry(), PullStep::Entry(e) if e.key == "a"));
    assert_eq!(listing.next_entry(), PullStep::List("/data/b".into()));
}
