use vfsx::paths::AbsPath;
use vfsx::paths::CacheKey;
use vfsx::paths::absolute_path;

fn key(s: &str) -> CacheKey {
    CacheKey { bytes: s.as_bytes().to_vec() }
}

fn abs(comps: &[&str]) -> AbsPath {
    AbsPath { components: comps.iter().map(|c| c.as_bytes().to_vec()).collect() }
}

fn comps(p: &AbsPath) -> Vec<String> {
    p.components.iter().map(|c| String::from_utf8_lossy(c).into_owned()).collect()
}

#[test]
fn absolute_path_resolves_relative_against_cwd() {
    let cwd = abs(&["work"]);
    let r = absolute_path(&cwd, &key("a.txt"));
    assert_eq!(comps(&r), vec!["work", "a.txt"]);
}

#[test]
fn absolute_path_keeps_absolute_input() {
    let cwd = abs(&["work"]);
    let r = absolute_path(&cwd, &key("/abs/a.txt"));
    assert_eq!(comps(&r), vec!["abs", "a.txt"]);
}

#[test]
fn absolute_path_cleans_dots_and_doubled_separators() {
    let cwd = abs(&["work"]);
    let r = absolute_path(&cwd, &key("../x/./y//z"));
    assert_eq!(comps(&r), vec!["x", "y", "z"]);
}

#[test]
fn absolute_path_drops_leading_dotdot_at_root() {
    let cwd = abs(&[]);
    let r = absolute_path(&cwd, &key("/../etc/passwd"));
    assert_eq!(comps(&r), vec!["etc", "passwd"]);
}

#[test]
fn absolute_path_of_empty_input_is_cwd() {
    let cwd = abs(&["home", "user"]);
    let r = absolute_path(&cwd, &key(""));
    assert_eq!(comps(&r), vec!["home", "user"]);
}

#[test]
fn parent_drops_last_component() {
    let p = abs(&["abs", "a.txt"]);
    let par = p.parent().unwrap();
    assert_eq!(comps(&par), vec!["abs"]);
    let root = par.parent().unwrap();
    assert_eq!(comps(&root), Vec::<String>::new());
    assert!(root.parent().is_none());
}

#[test]
fn starts_with_is_component_wise() {
    let p = abs(&["abs", "sub", "a.txt"]);
    assert!(p.starts_with(&abs(&["abs"])));
    assert!(p.starts_with(&abs(&["abs", "sub"])));
    assert!(p.starts_with(&p.clone_path()));
    assert!(!p.starts_with(&abs(&["ab"])));
    assert!(!p.starts_with(&abs(&["other"])));
    assert!(!abs(&["abs"]).starts_with(&p));
}

#[test]
fn eq_path_compares_components() {
    let a = abs(&["x", "y"]);
    assert!(a.eq_path(&abs(&["x", "y"])));
    assert!(!a.eq_path(&abs(&["x"])));
    assert!(!a.eq_path(&abs(&["x", "z"])));
}
