use imposter_pass::error::Error;
use imposter_pass::path::PathKey;
use std::cmp::Ordering;

fn segs(k: &PathKey) -> Vec<String> {
    (0..k.len()).map(|i| k.segment(i).to_string()).collect()
}

#[test]
fn normalize_drops_dot_and_empty_segments() {
    let k = PathKey::normalize("/a/./b//c/").unwrap();
    assert_eq!(segs(&k), vec!["a", "b", "c"]);
    assert_eq!(k.text(), "a/b/c");
}

#[test]
fn normalize_refuses_parent_segment() {
    assert_eq!(
        PathKey::normalize("a/../b").unwrap_err(),
        Error::InvalidPath("a/../b".to_string())
    );
    assert_eq!(
        PathKey::normalize("..").unwrap_err(),
        Error::InvalidPath("..".to_string())
    );
    assert_eq!(
        PathKey::normalize("x/y/..").unwrap_err(),
        Error::InvalidPath("x/y/..".to_string())
    );
}

#[test]
fn normalize_keeps_other_dotted_names() {
    let k = PathKey::normalize("...a/.b/c..").unwrap();
    assert_eq!(segs(&k), vec!["...a", ".b", "c.."]);
}

#[test]
fn normalize_is_idempotent() {
    for raw in ["a//b/./c/", "./x", "", "/", "é/ü"] {
        let once = PathKey::normalize(raw).unwrap();
        let twice = PathKey::normalize(&once.text()).unwrap();
        assert_eq!(segs(&once), segs(&twice));
        assert_eq!(once.text(), twice.text());
    }
}

#[test]
fn ancestor_is_componentwise() {
    let a = PathKey::normalize("a").unwrap();
    let ab = PathKey::normalize("ab").unwrap();
    let abc = PathKey::normalize("abc").unwrap();
    let deep = PathKey::normalize("a/b/c").unwrap();
    assert!(a.is_ancestor_of(&deep));
    assert!(deep.is_ancestor_of(&deep));
    assert!(!ab.is_ancestor_of(&abc));
    assert!(!deep.is_ancestor_of(&a));
    assert!(PathKey::root().is_ancestor_of(&a));
}

#[test]
fn common_prefix_is_longest_shared_run() {
    let x = PathKey::normalize("a/b/c").unwrap();
    let y = PathKey::normalize("a/b/d/e").unwrap();
    assert_eq!(x.common_prefix(&y).text(), "a/b");
    let z = PathKey::normalize("q").unwrap();
    assert_eq!(x.common_prefix(&z).len(), 0);
}

#[test]
fn order_is_by_segments() {
    let slash = PathKey::normalize("a/b").unwrap();
    let dash = PathKey::normalize("a-b").unwrap();
    let parent = PathKey::normalize("a").unwrap();
    assert_eq!(slash.compare(&dash), Ordering::Less);
    assert_eq!(parent.compare(&slash), Ordering::Less);
    assert_eq!(slash.compare(&slash.clone()), Ordering::Equal);
    assert_eq!(dash.compare(&slash), Ordering::Greater);
}
