use imposter_pass::error::Error;
use imposter_pass::path::PathKey;
use imposter_pass::session::finish_session;
use imposter_pass::store::Store;

fn store_of(items: &[(&str, &str)]) -> Store {
    let mut s = Store::new();
    for (k, v) in items {
        s.insert(PathKey::normalize(k).unwrap(), v.to_string());
    }
    s
}

#[test]
fn json_form_is_an_object_of_key_texts() {
    let s = store_of(&[("d", "z"), ("a/b", "x\n\"q\"")]);
    assert_eq!(s.to_json(), r#"{"a/b":"x\n\"q\"","d":"z"}"#);
    assert_eq!(Store::new().to_json(), "{}");
}

#[test]
fn json_round_trip_gives_same_store() {
    let s = store_of(&[("a/b", "x"), ("a-b", "w"), ("a/c", "y"), ("ü/ß", "z")]);
    let back = Store::from_json(&s.to_json()).unwrap();
    assert!(back == s);
    assert!(Store::from_json("{}").unwrap() == Store::new());
}

#[test]
fn reading_normalizes_keys() {
    let s = Store::from_json(r#"{"a//b/":"x","./c":"y"}"#).unwrap();
    assert!(s == store_of(&[("a/b", "x"), ("c", "y")]));
}

#[test]
fn reading_refuses_parent_segments_and_bad_json() {
    assert_eq!(
        Store::from_json(r#"{"a/../b":"x"}"#).unwrap_err(),
        Error::InvalidPath("a/../b".to_string())
    );
    assert!(matches!(Store::from_json("[1, 2"), Err(Error::Serde(_))));
    assert!(matches!(Store::from_json(r#"{"a": 1}"#), Err(Error::Serde(_))));
}

#[test]
fn from_pairs_later_pair_wins() {
    let pairs = vec![
        ("a/b".to_string(), "1".to_string()),
        ("a//b".to_string(), "2".to_string()),
    ];
    let s = Store::from_pairs(&pairs).unwrap();
    assert!(s == store_of(&[("a/b", "2")]));
}

#[test]
fn session_snapshot_merges_back() {
    // The store handed to a child, which rewrites its snapshot file.
    let original = store_of(&[("x", "1")]);
    let snapshot = original.to_json();
    assert_eq!(snapshot, r#"{"x":"1"}"#);
    let rewritten = r#"{"x": "1", "y": "2"}"#;
    let returned = Store::from_json(rewritten).unwrap();
    assert!(returned == store_of(&[("x", "1"), ("y", "2")]));
    assert!(returned != original);
    assert!(original == store_of(&[("x", "1")]));
}

#[test]
fn pretty_form_reads_back() {
    let s = store_of(&[("a/b", "x"), ("d", "z")]);
    let pretty = s.to_json_pretty();
    assert_eq!(pretty, "{\n  \"a/b\": \"x\",\n  \"d\": \"z\"\n}");
    assert!(Store::from_json(&pretty).unwrap() == s);
}

#[test]
fn finish_session_reports_change_only() {
    let original = store_of(&[("x", "1")]);
    let untouched = original.to_json();
    assert!(finish_session(&original, &untouched).unwrap().is_none());
    let changed = finish_session(&original, r#"{"x":"1","y":"2"}"#).unwrap().unwrap();
    assert!(changed == store_of(&[("x", "1"), ("y", "2")]));
    assert!(original == store_of(&[("x", "1")]));
    assert!(matches!(finish_session(&original, "not json"), Err(Error::Serde(_))));
    assert_eq!(
        finish_session(&original, r#"{"../x":"1"}"#).unwrap_err(),
        Error::InvalidPath("../x".to_string())
    );
}
