use imposter_pass::error::Error;
use imposter_pass::path::PathKey;
use imposter_pass::store::Store;

fn store_of(items: &[(&str, &str)]) -> Store {
    let mut s = Store::new();
    for (k, v) in items {
        let key = PathKey::normalize(k).unwrap();
        s.insert(key, v.to_string());
    }
    s
}

fn listed(s: &Store, start: Option<&str>) -> Vec<(String, String)> {
    s.list(start)
        .unwrap()
        .into_iter()
        .map(|(k, v)| (k.text(), v))
        .collect()
}

fn pairs(items: &[(&str, &str)]) -> Vec<(String, String)> {
    items
        .iter()
        .map(|(k, v)| (k.to_string(), v.to_string()))
        .collect()
}

#[test]
fn list_all_is_in_key_order() {
    let s = store_of(&[("d", "z"), ("a-b", "w"), ("a/c", "y"), ("a/b", "x")]);
    assert_eq!(
        listed(&s, None),
        pairs(&[("a/b", "x"), ("a/c", "y"), ("a-b", "w"), ("d", "z")])
    );
}

#[test]
fn list_under_prefix_selects_subtree() {
    let s = store_of(&[("d", "z"), ("a/c", "y"), ("a/b", "x"), ("ab", "q")]);
    assert_eq!(listed(&s, Some("a")), pairs(&[("a/b", "x"), ("a/c", "y")]));
    assert_eq!(listed(&s, Some("a/b")), pairs(&[("a/b", "x")]));
    assert_eq!(listed(&s, Some("zz")), pairs(&[]));
    assert_eq!(
        s.list(Some("../a")).unwrap_err(),
        Error::InvalidPath("../a".to_string())
    );
    let keys: Vec<String> = s
        .list_paths(Some("./a/"))
        .unwrap()
        .iter()
        .map(|k| k.text())
        .collect();
    assert_eq!(keys, vec!["a/b", "a/c"]);
}

#[test]
fn insert_overwrites_and_reports_previous() {
    let mut s = Store::new();
    let k = PathKey::normalize("a/b").unwrap();
    assert_eq!(s.insert(k.clone(), "1".to_string()), None);
    assert_eq!(s.insert(k.clone(), "2".to_string()), Some("1".to_string()));
    assert_eq!(s.len(), 1);
    assert_eq!(s.get(&k), Some(&"2".to_string()));
    assert_eq!(s.get(&PathKey::normalize("a").unwrap()), None);
}

#[test]
fn entry_reports_slot_state() {
    let s = store_of(&[("a/b", "x")]);
    let full = s.entry("a//b").unwrap();
    assert_eq!(full.key.text(), "a/b");
    assert_eq!(full.current, Some("x".to_string()));
    let empty = s.entry("a/c").unwrap();
    assert_eq!(empty.current, None);
    assert_eq!(
        s.entry("a/../c").unwrap_err(),
        Error::InvalidPath("a/../c".to_string())
    );
}

#[test]
fn remove_subtree_then_list_is_empty() {
    let mut s = store_of(&[("a/b", "x"), ("a/c", "y"), ("d", "z"), ("ab", "q")]);
    assert_eq!(s.remove("a"), Ok(2));
    assert_eq!(listed(&s, Some("a")), pairs(&[]));
    assert_eq!(listed(&s, None), pairs(&[("ab", "q"), ("d", "z")]));
    assert_eq!(s.remove("nothing"), Ok(0));
    assert_eq!(s.remove("a/.."), Err(Error::InvalidPath("a/..".to_string())));
    assert_eq!(s.len(), 2);
}

#[test]
fn stores_compare_by_content() {
    let a = store_of(&[("x", "1"), ("y", "2")]);
    let b = store_of(&[("y", "2"), ("x", "1")]);
    let c = store_of(&[("x", "1"), ("y", "3")]);
    assert!(a == b);
    assert!(a != c);
    assert!(a.clone() == a);
    assert!(Store::new() != a);
}

#[test]
fn entry_at_walks_in_order() {
    let s = store_of(&[("b", "2"), ("a", "1")]);
    let (k, v) = s.entry_at(0);
    assert_eq!((k.text(), v.clone()), ("a".to_string(), "1".to_string()));
}
