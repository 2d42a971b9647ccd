use ohaconf::strmap::StrMap;

#[test]
fn insert_replaces_in_place() {
    let mut m = StrMap::new();
    m.insert("a".to_string(), "1".to_string());
    m.insert("b".to_string(), "2".to_string());
    m.insert("a".to_string(), "3".to_string());
    assert_eq!(m.len(), 2);
    assert_eq!(m.key_at(0), "a");
    assert_eq!(m.value_at(0), "3");
    assert_eq!(m.get(&"b".to_string()).unwrap(), "2");
    assert!(m.get(&"c".to_string()).is_none());
}

#[test]
fn extend_and_from_pairs() {
    let mut a = StrMap::from_pairs(vec![("x".to_string(), "1".to_string()), ("x".to_string(), "2".to_string())]);
    assert_eq!(a.len(), 1);
    assert_eq!(a.value_at(0), "2");
    let b = StrMap::from_pairs(vec![("y".to_string(), "3".to_string()), ("x".to_string(), "4".to_string())]);
    a.extend(&b);
    assert_eq!(a.len(), 2);
    assert_eq!(a.get(&"x".to_string()).unwrap(), "4");
    assert_eq!(a.get(&"y".to_string()).unwrap(), "3");
}
