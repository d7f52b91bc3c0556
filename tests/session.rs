use imposter_pass::entry::Entry;
use imposter_pass::error::Error;
use imposter_pass::policy::{check_removal, classify, Matches};
use imposter_pass::entry::lines;
use imposter_pass::path::PathKey;
use imposter_pass::session::{
    child_environment, search_path, shell_quote, store_to_save, wrapper_script,
};
use imposter_pass::store::Store;

fn env(items: &[(&str, &str)]) -> Vec<(Vec<u8>, Vec<u8>)> {
    items
        .iter()
        .map(|(k, v)| (k.as_bytes().to_vec(), v.as_bytes().to_vec()))
        .collect()
}

#[test]
fn search_path_prepends_session_dir() {
    assert_eq!(
        search_path(Some(b"/usr/bin:/bin"), b"/tmp/s"),
        b"/tmp/s:/usr/bin:/bin".to_vec()
    );
    assert_eq!(search_path(None, b"/tmp/s"), b"/tmp/s".to_vec());
}

#[test]
fn child_environment_rewrites_only_path() {
    let base = env(&[("HOME", "/h"), ("PATH", "/bin"), ("X", "y")]);
    assert_eq!(
        child_environment(&base, b"/tmp/s"),
        env(&[("HOME", "/h"), ("PATH", "/tmp/s:/bin"), ("X", "y")])
    );
    let bare = env(&[("HOME", "/h")]);
    assert_eq!(
        child_environment(&bare, b"/tmp/s"),
        env(&[("HOME", "/h"), ("PATH", "/tmp/s")])
    );
}

#[test]
fn child_environment_keeps_non_utf8_bytes() {
    let base = vec![
        (b"ODD".to_vec(), vec![0xff, 0xfe]),
        (b"PATH".to_vec(), vec![b'/', 0xc3]),
    ];
    let out = child_environment(&base, b"/s");
    assert_eq!(
        out,
        vec![
            (b"ODD".to_vec(), vec![0xff, 0xfe]),
            (b"PATH".to_vec(), vec![b'/', b's', b':', b'/', 0xc3]),
        ]
    );
}

#[test]
fn wrapper_script_sets_both_variables() {
    assert_eq!(
        wrapper_script("/opt/real", "/tmp/s/123"),
        "#!/usr/bin/env sh\nexport IMPOSTER_PASS_QUIET=true\nexport IMPOSTER_PASS_STORE='/tmp/s/123'\nexec '/opt/real' \"$@\"\n"
    );
}

#[test]
fn shell_quote_escapes_single_quotes() {
    assert_eq!(shell_quote("a b"), "'a b'");
    assert_eq!(shell_quote("it's"), "'it'\\''s'");
    assert_eq!(shell_quote(""), "''");
}

#[test]
fn removal_policy() {
    assert_eq!(classify(0), Matches::NoMatch);
    assert_eq!(classify(1), Matches::SingleMatch);
    assert_eq!(classify(5), Matches::MultipleMatches(5));
    assert_eq!(check_removal("a", 0, true), Err(Error::NotInStore("a".to_string())));
    assert_eq!(check_removal("a", 1, false), Ok(()));
    assert_eq!(check_removal("a", 3, false), Err(Error::IsADirectory("a".to_string())));
    assert_eq!(check_removal("a", 3, true), Ok(()));
}

#[test]
fn passwd_is_first_line() {
    assert_eq!(Entry::new("pw\nuser:me".to_string()).passwd(), Some("pw"));
    assert_eq!(Entry::new("pw\r\nx".to_string()).passwd(), Some("pw"));
    assert_eq!(Entry::new("only".to_string()).passwd(), Some("only"));
    assert_eq!(Entry::new("\nsecond".to_string()).passwd(), Some(""));
    assert_eq!(Entry::new(String::new()).passwd(), None);
    assert_eq!(Entry::new("a\r".to_string()).passwd(), Some("a\r"));
}

#[test]
fn lines_follow_str_lines() {
    assert_eq!(lines("a\nb"), vec!["a", "b"]);
    assert_eq!(lines("a\r\nb\n"), vec!["a", "b"]);
    assert_eq!(lines("a\n\n"), vec!["a", ""]);
    assert_eq!(lines(""), Vec::<String>::new());
    assert_eq!(lines("x\r"), vec!["x\r"]);
}

#[test]
fn meta_splits_at_first_colon() {
    let e = Entry::new("pw\nuser: me\nurl:http://x:80\nplain\r\nk:v\r\n".to_string());
    let expected: Vec<(String, String)> = vec![
        ("user".to_string(), " me".to_string()),
        ("url".to_string(), "http://x:80".to_string()),
        ("k".to_string(), "v".to_string()),
    ];
    assert_eq!(e.meta(), expected);
    assert_eq!(Entry::new("pw".to_string()).meta(), Vec::<(String, String)>::new());
    assert_eq!(Entry::new(String::new()).meta(), Vec::<(String, String)>::new());
}

#[test]
fn meta_skips_the_password_line() {
    let e = Entry::new("a:b\nk:v".to_string());
    assert_eq!(e.meta(), vec![("k".to_string(), "v".to_string())]);
}

#[test]
fn meta_keeps_every_line_in_order() {
    let e = Entry::new("pw\nk:1\nk:2".to_string());
    let m = e.meta();
    assert_eq!(m, vec![("k".to_string(), "1".to_string()), ("k".to_string(), "2".to_string())]);
    let last: std::collections::BTreeMap<String, String> = m.into_iter().collect();
    assert_eq!(last.get("k"), Some(&"2".to_string()));
}

#[test]
fn only_changed_store_is_saved() {
    let mut before = Store::new();
    before.insert(PathKey::normalize("x").unwrap(), "1".to_string());
    assert!(store_to_save(&before, before.clone()).is_none());
    let mut after = before.clone();
    after.insert(PathKey::normalize("y").unwrap(), "2".to_string());
    let saved = store_to_save(&before, after.clone()).unwrap();
    assert!(saved == after);
}
