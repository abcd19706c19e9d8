use dotin_import::dirs::{dedup_nested, sort_paths};
use dotin_import::order::fs_path_le;
use dotin_import::path::FsPath;

fn p(path: &str) -> FsPath {
    let comps: Vec<String> = path.split('/').map(|c| c.to_string()).collect();
    FsPath::from_components(comps)
}

fn assert_path_is(actual: &FsPath, expected: &str) {
    assert!(
        actual.same_as(&p(expected)),
        "path mismatch: expected {expected}"
    );
}

#[test]
fn test_same_as() {
    assert!(p("home/user").same_as(&p("home/user")));
    assert!(!p("home/user").same_as(&p("home/other")));
    assert!(!p("home/user").same_as(&p("home/user/nested")));
}

#[test]
fn test_starts_with() {
    assert!(p("home/user/file").starts_with(&p("home/user")));
    assert!(p("home/user").starts_with(&p("home/user")));
    assert!(!p("home/user").starts_with(&p("home/user/file")));
    assert!(!p("home/other/file").starts_with(&p("home/user")));
}

#[test]
fn test_strip_prefix() {
    let rel = p("home/user/a/b").strip_prefix(&p("home/user")).unwrap();
    assert_path_is(&rel, "a/b");
    assert!(p("etc/conf").strip_prefix(&p("home/user")).is_none());
    let empty = p("home/user").strip_prefix(&p("home/user")).unwrap();
    assert_eq!(empty.depth(), 0);
}

#[test]
fn test_join() {
    let joined = p("home/user/dotfiles/group").join(&p("conf/rc"));
    assert_path_is(&joined, "home/user/dotfiles/group/conf/rc");
}

#[test]
fn test_parent() {
    let par = p("home/user/file").parent().unwrap();
    assert_path_is(&par, "home/user");
    assert!(FsPath::empty().parent().is_none());
}

#[test]
fn test_component_access() {
    let path = p("home/user/file");
    assert_eq!(path.depth(), 3);
    assert_eq!(path.component(0), "home");
    assert_eq!(path.component(2), "file");
}

#[test]
fn test_push() {
    let mut path = p("home");
    path.push("user".to_string());
    assert_path_is(&path, "home/user");
}

#[test]
fn test_order_ancestor_first() {
    assert!(fs_path_le(&p("a"), &p("a/c")));
    assert!(!fs_path_le(&p("a/c"), &p("a")));
    assert!(fs_path_le(&p("a/c"), &p("b")));
    assert!(fs_path_le(&p("a"), &p("a")));
    assert!(fs_path_le(&p("abc"), &p("abd")));
    assert!(!fs_path_le(&p("abd"), &p("abc")));
}

#[test]
fn test_sort_paths() {
    let mut dirs = vec![p("b"), p("a/c"), p("a"), p("a/b/z")];
    sort_paths(&mut dirs);
    assert_eq!(dirs.len(), 4);
    assert_path_is(&dirs[0], "a");
    assert_path_is(&dirs[1], "a/b/z");
    assert_path_is(&dirs[2], "a/c");
    assert_path_is(&dirs[3], "b");
}

#[test]
fn test_dedup_nested_drops_descendants() {
    let mut dirs = vec![p("a/b"), p("a"), p("c/d")];
    dedup_nested(&mut dirs);
    assert_eq!(dirs.len(), 2);
    assert_path_is(&dirs[0], "a");
    assert_path_is(&dirs[1], "c/d");
}

#[test]
fn test_dedup_nested_drops_repeats() {
    let mut dirs = vec![p("a"), p("a"), p("b")];
    dedup_nested(&mut dirs);
    assert_eq!(dirs.len(), 2);
    assert_path_is(&dirs[0], "a");
    assert_path_is(&dirs[1], "b");
}

#[test]
fn test_dedup_nested_keeps_unrelated() {
    let mut dirs = vec![p("a/b"), p("a/c")];
    dedup_nested(&mut dirs);
    assert_eq!(dirs.len(), 2);
    assert_path_is(&dirs[0], "a/b");
    assert_path_is(&dirs[1], "a/c");
}
