use mdparse::props::PropMap;

#[test]
fn new_map_is_empty() {
    let m = PropMap::new();
    assert!(m.is_empty());
    assert!(m.get("a").is_none());
}

#[test]
fn insert_then_get() {
    let mut m = PropMap::new();
    m.insert("a".to_string(), "1".to_string());
    m.insert("b".to_string(), "2".to_string());
    assert!(!m.is_empty());
    assert_eq!(m.get("a").unwrap(), "1");
    assert_eq!(m.get("b").unwrap(), "2");
    assert!(m.get("c").is_none());
}

#[test]
fn insert_replaces_value() {
    let mut m = PropMap::new();
    m.insert("a".to_string(), "1".to_string());
    m.insert("a".to_string(), "2".to_string());
    assert_eq!(m.get("a").unwrap(), "2");
}

#[test]
fn len_counts_keys_once() {
    let mut m = PropMap::new();
    assert_eq!(m.len(), 0);
    m.insert("a".to_string(), "1".to_string());
    m.insert("b".to_string(), "2".to_string());
    m.insert("a".to_string(), "3".to_string());
    assert_eq!(m.len(), 2);
}
