use std::collections::BTreeMap;

use warp_to::walker::{DirEntry, DirectoryWalker, PathRelationship, WalkStep};

/// A small directory tree: each directory and its sub-directories.
fn tree() -> BTreeMap<String, Vec<String>> {
    let mut t = BTreeMap::new();
    t.insert("/".to_string(), vec!["/r".to_string(), "/other".to_string()]);
    t.insert("/r".to_string(), vec!["/r/a".to_string(), "/r/b".to_string(), "/r/.git".to_string()]);
    t.insert("/r/a".to_string(), vec!["/r/a/deep".to_string()]);
    t.insert("/r/a/deep".to_string(), vec!["/r/a/deep/deeper".to_string()]);
    t.insert("/r/.git".to_string(), vec!["/r/.git/objects".to_string()]);
    t.insert("/other".to_string(), vec!["/other/x".to_string()]);
    t
}

fn walk(walker: DirectoryWalker, t: &BTreeMap<String, Vec<String>>) -> Vec<(String, usize, PathRelationship)> {
    let mut it = walker.into_iter();
    let mut out = Vec::new();
    let mut step = it.advance();
    loop {
        match step {
            WalkStep::Finished => break,
            WalkStep::Yield(e) => {
                out.push((e.path().clone(), e.distance, e.relation_to_start));
                step = it.advance();
            }
            WalkStep::ListDir(p) => {
                let listing = t.get(&p).cloned().unwrap_or_default();
                step = it.supply_listing(listing);
            }
        }
    }
    out
}

#[test]
fn downward_walk_is_breadth_first_and_bounded() {
    let out = walk(DirectoryWalker::new("/r".to_string(), 2), &tree());
    let paths: Vec<&str> = out.iter().map(|e| e.0.as_str()).collect();
    assert_eq!(paths, vec!["/r", "/r/a", "/r/b", "/r/.git", "/r/a/deep", "/r/.git/objects"]);
    assert_eq!(out[0].2, PathRelationship::Identical);
    assert!(out.iter().all(|e| e.1 <= 2));
    assert!(out.windows(2).all(|w| w[0].1 <= w[1].1));
}

#[test]
fn start_dir_can_be_left_out() {
    let out = walk(DirectoryWalker::new("/r".to_string(), 1).include_start_dir(false), &tree());
    let paths: Vec<&str> = out.iter().map(|e| e.0.as_str()).collect();
    assert_eq!(paths, vec!["/r/a", "/r/b", "/r/.git"]);
}

#[test]
fn excluded_start_is_not_handed_out_at_distance_zero() {
    let out = walk(DirectoryWalker::new("/r".to_string(), 0).include_start_dir(false), &tree());
    assert!(out.is_empty());
    let out = walk(DirectoryWalker::new("/r".to_string(), 0), &tree());
    let paths: Vec<&str> = out.iter().map(|e| e.0.as_str()).collect();
    assert_eq!(paths, vec!["/r"]);
}

#[test]
fn ignored_directories_are_not_entered() {
    let out = walk(
        DirectoryWalker::new("/r".to_string(), 3).ignores(vec![".git".to_string()]),
        &tree(),
    );
    let paths: Vec<&str> = out.iter().map(|e| e.0.as_str()).collect();
    assert_eq!(paths, vec!["/r", "/r/a", "/r/b", "/r/.git", "/r/a/deep", "/r/a/deep/deeper"]);
}

#[test]
fn ignored_start_is_still_entered() {
    let out = walk(
        DirectoryWalker::new("/r/.git".to_string(), 1).ignores(vec![".git".to_string()]),
        &tree(),
    );
    let paths: Vec<&str> = out.iter().map(|e| e.0.as_str()).collect();
    assert_eq!(paths, vec!["/r/.git", "/r/.git/objects"]);
}

#[test]
fn upward_walk_visits_ancestors_and_their_other_children() {
    let out = walk(
        DirectoryWalker::new("/r/a".to_string(), 2).walk_upward(true).include_start_dir(false),
        &tree(),
    );
    let got: Vec<(&str, usize, PathRelationship)> = out.iter().map(|e| (e.0.as_str(), e.1, e.2)).collect();
    assert_eq!(
        got,
        vec![
            ("/r/a/deep", 1, PathRelationship::Descendant),
            ("/r", 1, PathRelationship::Ancestor),
            ("/r/b", 1, PathRelationship::Disjoint),
            ("/r/.git", 1, PathRelationship::Disjoint),
            ("/r/a/deep/deeper", 2, PathRelationship::Descendant),
            ("/", 2, PathRelationship::Ancestor),
            ("/other", 2, PathRelationship::Disjoint),
            ("/r/.git/objects", 2, PathRelationship::Disjoint),
        ]
    );
}

#[test]
fn downward_walk_has_no_ancestors() {
    let out = walk(DirectoryWalker::new("/r/a".to_string(), 5), &tree());
    assert!(out
        .iter()
        .all(|e| e.2 == PathRelationship::Identical || e.2 == PathRelationship::Descendant));
}

#[test]
fn upward_walk_stops_at_the_root() {
    let out = walk(DirectoryWalker::new("/".to_string(), 1).walk_upward(true), &tree());
    let paths: Vec<&str> = out.iter().map(|e| e.0.as_str()).collect();
    assert_eq!(paths, vec!["/", "/r", "/other"]);
}

#[test]
fn entry_name_and_path() {
    let e = DirEntry::start_dir("/r/a/deep".to_string());
    assert_eq!(e.path(), "/r/a/deep");
    assert_eq!(e.dir_name(), Some("deep".to_string()));
    assert_eq!(e.distance, 0);
    assert_eq!(e.relation_to_start, PathRelationship::Identical);
    assert_eq!(DirEntry::start_dir("/".to_string()).dir_name(), None);
}

#[test]
fn start_with_trailing_separator_is_not_walked_twice() {
    let mut t = tree();
    t.insert("/r/a/".to_string(), vec!["/r/a/deep".to_string()]);
    let out = walk(
        DirectoryWalker::new("/r/a/".to_string(), 2).walk_upward(true).include_start_dir(false),
        &t,
    );
    let paths: Vec<&str> = out.iter().map(|e| e.0.as_str()).collect();
    assert!(!paths.contains(&"/r/a"));
    assert_eq!(paths.iter().filter(|p| **p == "/r/a/deep").count(), 1);
    assert!(paths.contains(&"/r/b"));
}
