use memo::memo::{Memo, MemoError, MemoMeta, MemoVariable};

fn empty() -> Memo {
    Memo::new("/tmp/memo/default.json".to_string())
}

fn entry(m: &Memo, key: &str) -> Option<(String, Option<String>)> {
    m.list()
        .iter()
        .find(|(k, _)| k == key)
        .map(|(_, v)| (v.value.clone(), v.ttl.clone()))
}

#[test]
fn add_then_get_then_remove() {
    let mut m = empty();
    assert_eq!(m.add("alpha", "1", None), Ok(()));
    let got = m.get("alpha").expect("alpha is present");
    assert_eq!(got.value, "1");
    assert_eq!(got.ttl, None);
    assert_eq!(m.meta.last_key_used.as_deref(), Some("alpha"));
    assert_eq!(m.rm("alpha"), Ok(()));
    assert!(m.get("alpha").is_none());
    assert!(m.get("-").is_none());
    assert_eq!(m.meta.last_key_used.as_deref(), Some("alpha"));
    assert!(m.list().is_empty());
}

#[test]
fn ttl_shown_then_swept() {
    let now: i64 = 1_700_000_000;
    let mut m = empty();
    assert_eq!(m.add("k", "v", Some(now + 10)), Ok(()));
    let (_, ttl) = entry(&m, "k").unwrap();
    assert_eq!(ttl.as_deref(), Some("1700000010"));
    assert_eq!(memo::command::remaining_ttl(&ttl, now), Some(10));
    m.flush_ttl_values(now + 11);
    assert!(entry(&m, "k").is_none());
    assert!(m.get("k").is_none());
}

#[test]
fn add_does_not_overwrite() {
    let mut m = empty();
    assert_eq!(m.add("a", "first", Some(5)), Ok(()));
    assert_eq!(m.add("b", "other", None), Ok(()));
    assert_eq!(m.add("a", "second", None), Err(MemoError::AlreadyExists));
    assert_eq!(entry(&m, "a"), Some(("first".to_string(), Some("5".to_string()))));
    assert_eq!(m.meta.last_key_used.as_deref(), Some("b"));
    assert_eq!(m.list().len(), 2);
}

#[test]
fn set_changes_only_given_fields() {
    let mut m = empty();
    m.add("k", "old", Some(100)).unwrap();
    assert_eq!(m.set("k", Some("new"), None), Ok(()));
    assert_eq!(entry(&m, "k"), Some(("new".to_string(), Some("100".to_string()))));
    assert_eq!(m.set("k", None, Some(-42)), Ok(()));
    assert_eq!(entry(&m, "k"), Some(("new".to_string(), Some("-42".to_string()))));
}

#[test]
fn set_without_fields_records_last_key() {
    let mut m = empty();
    m.add("a", "1", None).unwrap();
    m.add("b", "2", None).unwrap();
    assert_eq!(m.set("a", None, None), Ok(()));
    assert_eq!(m.meta.last_key_used.as_deref(), Some("a"));
    assert_eq!(entry(&m, "a"), Some(("1".to_string(), None)));
}

#[test]
fn set_and_rm_on_absent_key_report_not_found() {
    let mut m = empty();
    m.add("a", "1", None).unwrap();
    assert_eq!(m.set("zz", Some("x"), None), Err(MemoError::NotFound));
    assert_eq!(m.rm("zz"), Err(MemoError::NotFound));
    assert_eq!(m.meta.last_key_used.as_deref(), Some("a"));
    assert_eq!(m.list().len(), 1);
}

#[test]
fn shortcut_reads_last_added() {
    let mut m = empty();
    m.add("foo", "bar", None).unwrap();
    let by_shortcut = m.get("-").unwrap();
    let by_name = m.get("foo").unwrap();
    assert_eq!(by_shortcut.value, by_name.value);
    assert_eq!(by_shortcut.ttl, by_name.ttl);
    assert_eq!(by_shortcut.value, "bar");
}

#[test]
fn shortcut_without_last_key_is_literal() {
    let mut m = empty();
    assert_eq!(m.resolve_key("-"), "-");
    assert!(m.get("-").is_none());
    assert_eq!(m.meta.last_key_used, None);
    m.add("x", "1", None).unwrap();
    assert_eq!(m.resolve_key("-"), "x");
    assert_eq!(m.resolve_key("y"), "y");
}

#[test]
fn shortcut_applies_to_set_and_rm() {
    let mut m = empty();
    m.add("a", "1", None).unwrap();
    assert_eq!(m.set("-", Some("2"), None), Ok(()));
    assert_eq!(entry(&m, "a"), Some(("2".to_string(), None)));
    assert_eq!(m.rm("-"), Ok(()));
    assert!(entry(&m, "a").is_none());
}

#[test]
fn get_miss_leaves_last_key() {
    let mut m = empty();
    m.add("a", "1", None).unwrap();
    assert!(m.get("nope").is_none());
    assert_eq!(m.meta.last_key_used.as_deref(), Some("a"));
}

#[test]
fn sweep_boundary() {
    let now: i64 = 1000;
    let mut m = empty();
    m.add("at", "x", Some(now)).unwrap();
    m.add("before", "x", Some(now - 1)).unwrap();
    m.add("after", "x", Some(now + 1)).unwrap();
    m.add("never", "x", None).unwrap();
    m.flush_ttl_values(now);
    assert!(entry(&m, "at").is_none());
    assert!(entry(&m, "before").is_none());
    assert!(entry(&m, "after").is_some());
    assert!(entry(&m, "never").is_some());
    assert_eq!(m.meta.last_key_used.as_deref(), Some("never"));
}

#[test]
fn sweep_keeps_unreadable_ttl() {
    let pairs = vec![
        ("bad".to_string(), MemoVariable { value: "1".to_string(), ttl: Some("soon".to_string()) }),
        ("old".to_string(), MemoVariable { value: "2".to_string(), ttl: Some("5".to_string()) }),
    ];
    let mut m = Memo::get_default("f".to_string(), pairs, MemoMeta { last_key_used: None }).unwrap();
    m.flush_ttl_values(10);
    assert!(entry(&m, "bad").is_some());
    assert!(entry(&m, "old").is_none());
}

#[test]
fn reload_round_trip() {
    let mut m = empty();
    m.add("a", "1", Some(77)).unwrap();
    m.add("b", "two words", None).unwrap();
    let pairs: Vec<(String, MemoVariable)> = m
        .list()
        .iter()
        .map(|(k, v)| (k.clone(), MemoVariable { value: v.value.clone(), ttl: v.ttl.clone() }))
        .collect();
    let meta = MemoMeta { last_key_used: m.meta.last_key_used.clone() };
    let back = Memo::get_default(m.file_path(), pairs, meta).unwrap();
    assert_eq!(back.file_path(), "/tmp/memo/default.json");
    assert_eq!(entry(&back, "a"), Some(("1".to_string(), Some("77".to_string()))));
    assert_eq!(entry(&back, "b"), Some(("two words".to_string(), None)));
    assert_eq!(back.list().len(), 2);
    assert_eq!(back.meta.last_key_used.as_deref(), Some("b"));
}

#[test]
fn load_refuses_duplicate_keys() {
    let pairs = vec![
        ("a".to_string(), MemoVariable { value: "1".to_string(), ttl: None }),
        ("a".to_string(), MemoVariable { value: "2".to_string(), ttl: None }),
    ];
    let r = Memo::get_default("f".to_string(), pairs, MemoMeta { last_key_used: None });
    assert!(matches!(r, Err(MemoError::DuplicateKey)));
}

#[test]
fn new_store_is_empty() {
    let m = Memo::new("p".to_string());
    assert!(m.list().is_empty());
    assert_eq!(m.meta.last_key_used, None);
    assert_eq!(m.file_path(), "p");
}
