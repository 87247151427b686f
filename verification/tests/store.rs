use rkv::store::{now_ms, Entry, Store};

#[test]
fn set_get_overwrite_remove() {
    let mut s = Store::new();
    assert_eq!(s.get("k"), None);

    s.set("k".into(), "v1".into(), None);
    assert_eq!(s.get("k"), Some("v1"));

    s.set("k".into(), "v2".into(), None);
    assert_eq!(s.get("k"), Some("v2"));

    assert!(s.remove("k"));
    assert!(!s.remove("k"));
    assert_eq!(s.get("k"), None);
}

#[test]
fn keys_are_sorted_and_counted() {
    let mut s = Store::new();
    for k in ["b", "a", "c"] {
        s.set(k.into(), "v".into(), None);
    }
    assert_eq!(s.keys(), vec!["a", "b", "c"]);
    assert_eq!(s.len(), 3);
}

#[test]
fn expired_entry_is_invisible() {
    let mut s = Store::new();
    s.set("gone".into(), "v".into(), Some(now_ms() - 1));
    s.set("alive".into(), "v".into(), Some(now_ms() + 60_000));

    assert_eq!(s.get("gone"), None);
    assert_eq!(s.get("alive"), Some("v"));
    assert_eq!(s.keys(), vec!["alive"]);
    assert_eq!(s.len(), 1);
}

#[test]
fn expiry_is_exact_at_the_given_time() {
    let mut s = Store::new();
    s.set("k".into(), "v".into(), Some(1000));
    assert_eq!(s.get_at("k", 999), Some("v"));
    // An entry whose expiry time has come is gone, and the read removes it.
    assert_eq!(s.get_at("k", 1000), None);
    assert_eq!(s.len_at(0), 0);
}

#[test]
fn remove_reports_only_live_entries() {
    let mut s = Store::new();
    s.set("old".into(), "v".into(), Some(10));
    s.set("new".into(), "v".into(), None);
    assert!(!s.remove_at("old", 10));
    assert!(s.remove_at("new", 10));
    assert!(!s.remove_at("missing", 10));
    assert!(s.is_empty_at(0));
}

#[test]
fn keys_are_ordered_by_str_order() {
    let mut s = Store::new();
    for k in ["课程", "b", "B", "ab", "a", "姓名"] {
        s.set(k.into(), "v".into(), None);
    }
    let mut expected = vec!["课程", "b", "B", "ab", "a", "姓名"];
    expected.sort();
    assert_eq!(s.keys_at(0), expected);
}

#[test]
fn purge_and_listing_drop_expired_entries() {
    let mut s = Store::new();
    s.set("a".into(), "1".into(), Some(5));
    s.set("b".into(), "2".into(), None);
    s.set("c".into(), "3".into(), Some(50));
    assert_eq!(s.keys_at(5), vec!["b", "c"]);
    let live = s.iter_valid_at(5);
    assert_eq!(
        live,
        vec![
            ("b".to_string(), Entry { value: "2".into(), expire_at_ms: None }),
            ("c".to_string(), Entry { value: "3".into(), expire_at_ms: Some(50) }),
        ]
    );
    s.purge_at(100);
    assert_eq!(s.keys_at(0), vec!["b"]);
}

#[test]
fn take_hands_back_the_entry() {
    let mut s = Store::new();
    s.set("k".into(), "v".into(), Some(7));
    assert_eq!(s.take("k"), Some(Entry { value: "v".into(), expire_at_ms: Some(7) }));
    assert_eq!(s.take("k"), None);
    assert!(Entry { value: "v".into(), expire_at_ms: Some(7) }.is_expired(7));
    assert!(!Entry { value: "v".into(), expire_at_ms: None }.is_expired(u64::MAX));
}

#[test]
fn listing_the_live_entries_now() {
    let mut s = Store::new();
    assert!(s.is_empty());
    s.set("b".into(), "2".into(), None);
    s.set("a".into(), "1".into(), Some(now_ms() + 60_000));
    s.set("x".into(), "9".into(), Some(1));
    let live = s.iter_valid();
    assert_eq!(live.len(), 2);
    assert_eq!(live[0].0, "a");
    assert_eq!(live[1], ("b".to_string(), Entry { value: "2".into(), expire_at_ms: None }));
    assert!(!s.is_empty());
    assert_eq!(s.get("x"), None);
}
