use imposter_pass::error::Error;
use imposter_pass::path::PathKey;
use imposter_pass::store::Store;

fn store_of(items: &[(&str, &str)]) -> Store {
    let mut s = Store::new();
    for (k, v) in items {
        s.insert(PathKey::normalize(k).unwrap(), v.to_string());
    }
    s
}

#[test]
fn whole_store_tree_prints_each_branch_once() {
    let s = store_of(&[("a/b", "x"), ("a/c", "y"), ("d", "z")]);
    assert_eq!(s.show(None).unwrap(), "Password Store\na\n\tb\n\tc\nd\n");
}

#[test]
fn exact_key_shows_the_secret() {
    let s = store_of(&[("a/b", "secret123")]);
    assert_eq!(s.show(Some("a/b")).unwrap(), "secret123");
}

#[test]
fn folder_with_one_descendant_shows_tree() {
    let s = store_of(&[("a/b", "secret123")]);
    assert_eq!(s.show(Some("a")).unwrap(), "a\n\tb\n");
}

#[test]
fn deeper_tree_indents_by_depth() {
    let s = store_of(&[("a/b/c", "1"), ("a/b/d", "2"), ("a/e", "3"), ("f/g", "4")]);
    assert_eq!(
        s.show(None).unwrap(),
        "Password Store\na\n\tb\n\t\tc\n\t\td\n\te\nf\n\tg\n"
    );
    assert_eq!(s.show(Some("a/b")).unwrap(), "a/b\n\t\tc\n\t\td\n");
}

#[test]
fn empty_selection_outcomes_differ() {
    let empty = Store::new();
    assert_eq!(empty.show(None).unwrap(), "Password Store\n");
    let s = store_of(&[("a", "1")]);
    assert_eq!(s.show(Some("x/y")), Err(Error::NotInStore("x/y".to_string())));
    assert_eq!(
        s.show(Some("x/../y")),
        Err(Error::InvalidPath("x/../y".to_string()))
    );
}

#[test]
fn empty_prefix_lists_whole_store() {
    let s = store_of(&[("a", "1"), ("b", "2")]);
    assert_eq!(s.show(Some("/")).unwrap(), "Password Store\na\nb\n");
}
