use ftl_csv_convert::sorted_map::SortedMap;

#[test]
fn insert_keeps_keys_sorted_and_unique() {
    let mut m: SortedMap<String> = SortedMap::new();
    m.insert("b".to_string(), "2".to_string());
    m.insert("a".to_string(), "1".to_string());
    m.insert("c".to_string(), "3".to_string());
    m.insert("b".to_string(), "22".to_string());
    assert_eq!(m.len(), 3);
    assert_eq!(m.key_at(0), "a");
    assert_eq!(m.key_at(1), "b");
    assert_eq!(m.key_at(2), "c");
    assert_eq!(m.value_at(1), "22");
    assert_eq!(m.get("b").unwrap(), "22");
    assert!(m.get("d").is_none());
    assert!(m.contains_key("a"));
    assert!(!m.contains_key("A"));
}

#[test]
fn order_is_by_code_point() {
    let mut m: SortedMap<u32> = SortedMap::new();
    for (i, k) in ["é", "z", "Z", "", "ab", "a"].iter().enumerate() {
        m.insert(k.to_string(), i as u32);
    }
    let keys: Vec<&str> = (0..m.len()).map(|i| m.key_at(i).as_str()).collect();
    assert_eq!(keys, vec!["", "Z", "a", "ab", "z", "é"]);
}
