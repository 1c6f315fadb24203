use banco_memoria::storage::Store;

#[test]
fn stores_overwrites_and_reads_values() {
    let mut store = Store::new();
    store.insert("key".to_string(), "first".to_string());
    store.insert("key".to_string(), "second".to_string());
    assert_eq!(store.get("key").as_deref(), Some("second"));
}

#[test]
fn searches_by_value_and_honors_exclusion() {
    let mut store = Store::new();
    store.insert("key".to_string(), "value".to_string());
    assert_eq!(store.find_key_by_value("value", None).as_deref(), Some("key"));
    assert_eq!(store.find_key_by_value("value", Some("key")), None);
}

#[test]
fn reads_nothing_for_a_missing_key_and_keeps_other_keys() {
    let mut store = Store::default();
    assert_eq!(store.get("missing"), None);
    store.insert("a".to_string(), "1".to_string());
    store.insert("b".to_string(), "2".to_string());
    store.insert("a".to_string(), "3".to_string());
    assert_eq!(store.get("a").as_deref(), Some("3"));
    assert_eq!(store.get("b").as_deref(), Some("2"));
    assert_eq!(store.get("c"), None);
}

#[test]
fn search_finds_another_key_with_the_same_value() {
    let mut store = Store::new();
    store.insert("first".to_string(), "same".to_string());
    store.insert("second".to_string(), "same".to_string());
    store.insert("third".to_string(), "other".to_string());
    assert_eq!(
        store.find_key_by_value("same", Some("first")).as_deref(),
        Some("second")
    );
    let found = store.find_key_by_value("same", None);
    assert!(found.as_deref() == Some("first") || found.as_deref() == Some("second"));
    assert_eq!(store.find_key_by_value("absent", None), None);
    assert_eq!(store.find_key_by_value("other", Some("third")), None);
}

fn query(store: &Store, request: &str, first: Option<&str>, second: Option<&str>) -> Option<String> {
    store.answer_query((
        request.to_string(),
        first.map(|s| s.to_string()),
        second.map(|s| s.to_string()),
    ))
}

#[test]
fn answers_the_queries_of_the_extensions() {
    let mut store = Store::new();
    store.insert("a".to_string(), "1".to_string());
    assert_eq!(query(&store, "get", Some("a"), None).as_deref(), Some("1"));
    assert_eq!(query(&store, "get", Some("b"), None), None);
    assert_eq!(query(&store, "find", Some("1"), None).as_deref(), Some("a"));
    assert_eq!(query(&store, "find", Some("1"), Some("a")), None);
    assert_eq!(query(&store, "find", Some("2"), None), None);
    assert_eq!(query(&store, "get", None, None), None);
    assert_eq!(query(&store, "other", Some("a"), None), None);
}
