use std::io::Write;

use vfsx::classify::ChangeEvent;
use vfsx::dispatch::dedup_keys;
use vfsx::mangler::Mangler;
use vfsx::mangler::WatchOutcome;
use vfsx::paths::AbsPath;
use vfsx::paths::CacheKey;
use vfsx::paths::absolute_path;

fn key(s: &str) -> CacheKey {
    CacheKey { bytes: s.as_bytes().to_vec() }
}

fn abs(comps: &[&str]) -> AbsPath {
    AbsPath { components: comps.iter().map(|c| c.as_bytes().to_vec()).collect() }
}

fn canon(p: &std::path::Path) -> AbsPath {
    let root = AbsPath { components: Vec::new() };
    absolute_path(&root, &key(p.to_str().unwrap()))
}

fn new_mangler() -> Mangler {
    let watcher = notify::recommended_watcher(|_res| {}).unwrap();
    Mangler::new(watcher)
}

fn key_strings(batch: &[CacheKey]) -> Vec<String> {
    let mut v: Vec<String> =
        batch.iter().map(|k| String::from_utf8_lossy(&k.bytes).into_owned()).collect();
    v.sort();
    v
}

/// A read subscribes the parent directory and the file itself; a direct
/// modify event on the file then invalidates exactly its cache key and
/// drops the file from the subscription set.
#[test]
fn read_then_direct_event_invalidates_key() {
    let dir = tempfile::tempdir().unwrap();
    let mut file = tempfile::NamedTempFile::new_in(dir.path()).unwrap();
    file.write_all(b"contents").unwrap();
    let cpath = canon(file.path());
    let parent = canon(dir.path());

    let mut m = new_mangler();
    let attempted = m.subscribe_path(&cpath, &key("a.txt"));
    assert_eq!(attempted.len(), 2);
    assert!(attempted[0].path.eq_path(&parent));
    assert!(matches!(attempted[0].outcome, WatchOutcome::Registered));
    assert!(attempted[1].path.eq_path(&cpath));
    assert!(matches!(attempted[1].outcome, WatchOutcome::Registered));
    assert!(m.wset.contains(&cpath));
    assert!(m.wset.contains(&parent));

    let ev = ChangeEvent { paths: vec![cpath.clone_path()], is_direct: true };
    let batch = m.handle_modev(&ev);
    assert_eq!(key_strings(&batch), vec!["a.txt".to_string()]);
    assert!(!m.wset.contains(&cpath));
    assert!(m.wset.contains(&parent));
}

/// Two reads under one directory; an indirect remove event on the
/// directory invalidates both cache keys in one batch and empties the
/// reverse key map.
#[test]
fn indirect_event_invalidates_all_descendants() {
    let dir = tempfile::tempdir().unwrap();
    let mut fa = tempfile::NamedTempFile::new_in(dir.path()).unwrap();
    fa.write_all(b"a").unwrap();
    let mut fb = tempfile::NamedTempFile::new_in(dir.path()).unwrap();
    fb.write_all(b"b").unwrap();
    let pa = canon(fa.path());
    let pb = canon(fb.path());
    let pdir = canon(dir.path());

    let mut m = new_mangler();
    m.subscribe_path(&pa, &key("a.txt"));
    m.subscribe_path(&pb, &key("b.txt"));
    assert_eq!(m.wset.len(), 3);

    let ev = ChangeEvent { paths: vec![pdir], is_direct: false };
    let batch = m.handle_modev(&ev);
    assert_eq!(key_strings(&batch), vec!["a.txt".to_string(), "b.txt".to_string()]);
    assert_eq!(m.wset.len(), 0);
    assert_eq!(m.trm.entries.len(), 0);
}

/// An indirect event touches no subscription outside its subtree.
#[test]
fn indirect_event_spares_paths_outside_subtree() {
    let dir_a = tempfile::tempdir().unwrap();
    let dir_b = tempfile::tempdir().unwrap();
    let mut fa = tempfile::NamedTempFile::new_in(dir_a.path()).unwrap();
    fa.write_all(b"a").unwrap();
    let mut fb = tempfile::NamedTempFile::new_in(dir_b.path()).unwrap();
    fb.write_all(b"b").unwrap();
    let pa = canon(fa.path());
    let pb = canon(fb.path());

    let mut m = new_mangler();
    m.subscribe_path(&pa, &key("a.txt"));
    m.subscribe_path(&pb, &key("b.txt"));

    let ev = ChangeEvent { paths: vec![canon(dir_a.path())], is_direct: false };
    let batch = m.handle_modev(&ev);
    assert_eq!(key_strings(&batch), vec!["a.txt".to_string()]);
    assert!(m.wset.contains(&pb));
    assert!(!m.wset.contains(&pa));
}

/// A read of a path whose directory does not exist registers nothing:
/// the parent attempt fails with path-not-found, the file is not
/// attempted, and no tracking is established.
#[test]
fn missing_directory_registers_nothing() {
    let cpath = abs(&["vfsx_no_such_dir_a8f3", "missing.txt"]);
    let mut m = new_mangler();
    let attempted = m.subscribe_path(&cpath, &key("missing.txt"));
    assert_eq!(attempted.len(), 1);
    assert!(attempted[0].path.eq_path(&abs(&["vfsx_no_such_dir_a8f3"])));
    assert!(matches!(attempted[0].outcome, WatchOutcome::NotFound));
    assert_eq!(m.wset.len(), 0);
    assert_eq!(m.trm.entries.len(), 0);
}

/// Re-reading an already-subscribed path attempts no new registration:
/// the external watcher is asked at most once per canonical path.
#[test]
fn second_read_registers_nothing() {
    let dir = tempfile::tempdir().unwrap();
    let mut file = tempfile::NamedTempFile::new_in(dir.path()).unwrap();
    file.write_all(b"contents").unwrap();
    let cpath = canon(file.path());

    let mut m = new_mangler();
    let first = m.subscribe_path(&cpath, &key("a.txt"));
    assert_eq!(first.len(), 2);
    let second = m.subscribe_path(&cpath, &key("again.txt"));
    assert_eq!(second.len(), 0);
}

/// Two cache keys that resolve to one canonical path are both
/// invalidated by one direct event on that path.
#[test]
fn two_keys_one_path_both_invalidated() {
    let dir = tempfile::tempdir().unwrap();
    let mut file = tempfile::NamedTempFile::new_in(dir.path()).unwrap();
    file.write_all(b"contents").unwrap();
    let cpath = canon(file.path());

    let mut m = new_mangler();
    m.subscribe_path(&cpath, &key("k1"));
    m.subscribe_path(&cpath, &key("k2"));

    let ev = ChangeEvent { paths: vec![cpath.clone_path()], is_direct: true };
    let batch = m.handle_modev(&ev);
    assert_eq!(key_strings(&batch), vec!["k1".to_string(), "k2".to_string()]);
    assert!(!m.wset.contains(&cpath));
}

/// Invalidating an already-invalidated path is a no-op: the event finds
/// no subscription and produces no keys.
#[test]
fn direct_event_on_unwatched_path_is_noop() {
    let mut m = new_mangler();
    let ev = ChangeEvent { paths: vec![abs(&["nowhere", "x.txt"])], is_direct: true };
    let batch = m.handle_modev(&ev);
    assert!(batch.is_empty());
    assert_eq!(m.wset.len(), 0);
}

/// A burst of related events for one path yields the keys once: the
/// first event drains the subscription, the repeats contribute nothing,
/// and deduplication applies the key exactly once.
#[test]
fn burst_of_events_coalesces_to_one_invalidation() {
    let dir = tempfile::tempdir().unwrap();
    let mut file = tempfile::NamedTempFile::new_in(dir.path()).unwrap();
    file.write_all(b"contents").unwrap();
    let cpath = canon(file.path());

    let mut m = new_mangler();
    m.subscribe_path(&cpath, &key("a.txt"));

    let mut accumulated: Vec<CacheKey> = Vec::new();
    for _ in 0..3 {
        let ev = ChangeEvent { paths: vec![cpath.clone_path()], is_direct: true };
        let mut batch = m.handle_modev(&ev);
        accumulated.append(&mut batch);
    }
    let applied = dedup_keys(&accumulated);
    assert_eq!(key_strings(&applied), vec!["a.txt".to_string()]);
}
