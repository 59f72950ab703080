use vfsx::dispatch::dedup_keys;
use vfsx::paths::AbsPath;
use vfsx::paths::CacheKey;
use vfsx::trm::ReverseKeyMap;
use vfsx::wset::WatchSet;

fn key(s: &str) -> CacheKey {
    CacheKey { bytes: s.as_bytes().to_vec() }
}

fn abs(comps: &[&str]) -> AbsPath {
    AbsPath { components: comps.iter().map(|c| c.as_bytes().to_vec()).collect() }
}

fn key_strings(batch: &[CacheKey]) -> Vec<String> {
    batch.iter().map(|k| String::from_utf8_lossy(&k.bytes).into_owned()).collect()
}

#[test]
fn dedup_keeps_first_occurrence_of_each_key() {
    let batch = vec![key("a"), key("b"), key("a"), key("c"), key("b")];
    let r = dedup_keys(&batch);
    assert_eq!(key_strings(&r), vec!["a", "b", "c"]);
}

#[test]
fn dedup_of_empty_batch_is_empty() {
    let r = dedup_keys(&Vec::new());
    assert!(r.is_empty());
}

#[test]
fn watch_set_insert_is_idempotent() {
    let mut ws = WatchSet::new();
    assert!(ws.insert(abs(&["a"])));
    assert!(!ws.insert(abs(&["a"])));
    assert_eq!(ws.len(), 1);
    assert!(ws.contains(&abs(&["a"])));
}

#[test]
fn watch_set_remove_of_non_member_is_noop() {
    let mut ws = WatchSet::new();
    ws.insert(abs(&["a"]));
    assert!(!ws.remove(&abs(&["b"])));
    assert_eq!(ws.len(), 1);
    assert!(ws.remove(&abs(&["a"])));
    assert!(!ws.remove(&abs(&["a"])));
    assert_eq!(ws.len(), 0);
}

#[test]
fn reverse_key_map_take_empties_entry() {
    let mut trm = ReverseKeyMap::new();
    let p = abs(&["abs", "a.txt"]);
    trm.record(&p, key("k1"));
    trm.record(&p, key("k2"));
    trm.record(&p, key("k1"));
    let taken = trm.take(&p);
    let mut names = key_strings(&taken);
    names.sort();
    assert_eq!(names, vec!["k1", "k2"]);
    assert!(trm.take(&p).is_empty());
    assert_eq!(trm.entries.len(), 0);
}
