//! Clients that walk through listings from token to token.

use std::collections::HashMap;

use hdfs_s3_gateway::config::Config;
use hdfs_s3_gateway::error::{HdfsError, HdfsErrorKind};
use hdfs_s3_gateway::list_objects::{
    delimited_page, flat_page, list_output, list_step, plan_list, ListOutput, ListRequest, ListStep,
};
use hdfs_s3_gateway::listing::ListEntry;
use hdfs_s3_gateway::path::PathMapper;
use hdfs_s3_gateway::sorted_listing::{FileStatus, PageStep, PullStep, SortedListing};

fn status(path: &str, isdir: bool) -> FileStatus {
    FileStatus {
        path: path.into(),
        length: 7,
        isdir,
        modification_time: 42,
    }
}

fn mapper() -> PathMapper {
    let config = Config {
        hdfs_root: "/data".into(),
        bucket_name: "hdfs".into(),
        ..Config::default()
    };
    PathMapper::new(&config)
}

/// A tree given by its files below `/data`.
fn tree(files: &[&str]) -> HashMap<String, Vec<FileStatus>> {
    let mut tree: HashMap<String, Vec<FileStatus>> = HashMap::new();
    tree.insert("/data".into(), Vec::new());
    for f in files {
        let names: Vec<&str> = f.split('/').collect();
        let mut dir = String::from("/data");
        for (i, name) in names.iter().enumerate() {
            let isdir = i + 1 < names.len();
            let path = format!("{dir}/{name}");
            let listed = tree.entry(dir.clone()).or_default();
            if !listed.iter().any(|s| s.path == path) {
                listed.push(status(&path, isdir));
            }
            dir = path;
        }
    }
    tree
}

fn small() -> HashMap<String, Vec<FileStatus>> {
    tree(&["a.txt", "b/1.txt", "b/2.txt", "b2.txt", "c/x/1.txt", "d.txt"])
}

fn list(tree: &HashMap<String, Vec<FileStatus>>, dir: &str) -> Result<Vec<FileStatus>, HdfsError> {
    tree.get(dir).cloned().ok_or(HdfsError {
        kind: HdfsErrorKind::FileNotFound,
        text: dir.into(),
    })
}

fn collect(
    tree: &HashMap<String, Vec<FileStatus>>,
    start: &str,
    prefix: &str,
    after: Option<String>,
    n: usize,
) -> (Vec<ListEntry>, bool) {
    let mut listing = SortedListing::new(start.into(), prefix.into(), after, mapper());
    loop {
        match listing.collect_page(n) {
            PageStep::List(dir) => listing.supply(list(tree, &dir)).unwrap(),
            PageStep::Page(entries, truncated) => return (entries, truncated),
        }
    }
}

fn answer(tree: &HashMap<String, Vec<FileStatus>>, request: &ListRequest) -> ListOutput {
    let mapper = mapper();
    let plan = plan_list(&mapper, request).unwrap();
    let page = match list_step(&plan) {
        ListStep::Level(dir) => {
            let statuses = match dir {
                Some(dir) => list(tree, &dir),
                None => Ok(Vec::new()),
            };
            delimited_page(&mapper, &plan, statuses, false).unwrap()
        }
        ListStep::Merge(start) => {
            let (entries, truncated) = collect(
                tree,
                &start,
                &plan.prefix,
                plan.start_after.clone(),
                plan.max_keys,
            );
            flat_page(entries, truncated)
        }
        ListStep::Empty => flat_page(Vec::new(), false),
    };
    list_output(&mapper, request, page)
}

fn request(prefix: &str, delimiter: Option<&str>, n: i32) -> ListRequest {
    ListRequest {
        bucket: "hdfs".into(),
        prefix: Some(prefix.into()),
        delimiter: delimiter.map(|d| d.into()),
        max_keys: Some(n),
        continuation_token: None,
        start_after: None,
    }
}

/// What each response of a walk shows: keys of objects and CommonPrefixes.
fn walk(
    tree: &HashMap<String, Vec<FileStatus>>,
    prefix: &str,
    delimiter: Option<&str>,
    n: i32,
) -> Vec<Vec<String>> {
    let mut shown = Vec::new();
    let mut r = request(prefix, delimiter, n);
    loop {
        let out = answer(tree, &r);
        let mut keys: Vec<String> = Vec::new();
        for o in out.contents.unwrap_or_default() {
            keys.push(o.key);
        }
        for p in out.common_prefixes.unwrap_or_default() {
            keys.push(p);
        }
        keys.sort();
        assert_eq!(out.key_count, keys.len() as u128);
        assert!(keys.len() <= n as usize);
        assert_eq!(out.is_truncated, out.next_continuation_token.is_some());
        shown.push(keys);
        match out.next_continuation_token {
            Some(token) => r.continuation_token = Some(token),
            None => return shown,
        }
    }
}

#[test]
fn a_plan_says_where_its_page_comes_from() {
    let step = |prefix: &str, delimiter: Option<&str>| {
        list_step(&plan_list(&mapper(), &request(prefix, delimiter, 5)).unwrap())
    };
    assert_eq!(step("b/1", Some("/")), ListStep::Level(Some("/data/b".into())));
    assert_eq!(step("../x/", Some("/")), ListStep::Level(None));
    assert_eq!(step("b/1", None), ListStep::Merge("/data/b".into()));
    assert_eq!(step("b/1", Some("")), ListStep::Merge("/data/b".into()));
    assert_eq!(step("../x/", None), ListStep::Empty);
}

#[test]
fn a_flat_walk_serves_every_key_once() {
    let all = ["a.txt", "b/1.txt", "b/2.txt", "b2.txt", "c/x/1.txt", "d.txt"];
    for n in 1..=7 {
        let pages = walk(&small(), "", None, n);
        assert_eq!(pages.concat(), all);
        assert!(pages.len() <= all.len() + 1);
    }
    assert_eq!(walk(&small(), "", None, 4).len(), 2);
    assert_eq!(walk(&small(), "b", None, 2).concat(), ["b/1.txt", "b/2.txt", "b2.txt"]);
    assert_eq!(walk(&small(), "b/", None, 1).concat(), ["b/1.txt", "b/2.txt"]);
    assert_eq!(walk(&small(), "zz", None, 1), [Vec::<String>::new()]);
    assert_eq!(walk(&small(), "../x/", None, 1), [Vec::<String>::new()]);
}

#[test]
fn a_delimited_walk_serves_every_key_once() {
    let all = ["a.txt", "b/", "b2.txt", "c/", "d.txt"];
    for n in 1..=6 {
        let pages = walk(&small(), "", Some("/"), n);
        assert_eq!(pages.concat(), all);
        assert!(pages.len() <= all.len() + 1);
    }
    assert_eq!(
        walk(&small(), "", Some("/"), 2),
        [vec!["a.txt", "b/"], vec!["b2.txt", "c/"], vec!["d.txt"]]
    );
    assert_eq!(walk(&small(), "", Some("."), 1).concat(), ["a.", "b/", "b2.", "c/", "d."]);
    assert_eq!(walk(&small(), "missing/", Some("/"), 1), [Vec::<String>::new()]);
    assert_eq!(walk(&small(), "../x/", Some("/"), 1), [Vec::<String>::new()]);
}

#[test]
fn collected_pages_make_up_the_whole() {
    for (start, prefix) in [("/data", ""), ("/data", "b"), ("/data/c", ""), ("/data", "b/1")] {
        let (whole, truncated) = collect(&small(), start, prefix, None, usize::MAX);
        assert!(!truncated);
        for n in 1..=7 {
            let mut joined: Vec<ListEntry> = Vec::new();
            let mut pages = 0;
            loop {
                let after = joined.last().map(|e| e.key.clone());
                let (page, more) = collect(&small(), start, prefix, after, n);
                pages += 1;
                joined.extend(page);
                if !more {
                    break;
                }
            }
            assert_eq!(joined, whole);
            assert!(pages <= whole.len() + 1);
        }
    }
}

#[test]
fn pulls_from_another_start_ask_in_turn() {
    let pull = |start: &str, prefix: &str, after: Option<&str>| {
        let mut listing = SortedListing::new(
            start.into(),
            prefix.into(),
            after.map(|a| a.into()),
            mapper(),
        );
        let mut events: Vec<String> = Vec::new();
        loop {
            match listing.next_entry() {
                PullStep::List(dir) => {
                    events.push(dir.clone());
                    listing.supply(list(&small(), &dir)).unwrap();
                }
                PullStep::Entry(e) => events.push(e.key),
                PullStep::Done => return events,
            }
        }
    };
    // Below the prefix's directory.
    assert_eq!(pull("/data/c", "", None), ["/data/c", "/data/c/x", "c/x/1.txt"]);
    assert_eq!(pull("/data/b", "", Some("b/1.txt")), ["/data/b", "b/2.txt"]);
    // Above it: a directory whose key does not begin with the prefix is not opened.
    assert_eq!(pull("/data", "b/1", None), ["/data"]);
    // Beside it: no key matches.
    assert_eq!(pull("/data/c", "b/", None), ["/data/c"]);
    // Not spelled by real names, or not there.
    assert_eq!(pull("/data//b", "", None), ["/data//b"]);
    assert_eq!(pull("/elsewhere", "", None), ["/elsewhere"]);
}
