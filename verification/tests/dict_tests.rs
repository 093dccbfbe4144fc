use lox::dict::Dict;

#[test]
fn a_new_dict_is_empty() {
    let dict: Dict<u64> = Dict::new();
    assert_eq!(dict.get(&"a".to_string()), None);
    assert!(!dict.contains_key(&"a".to_string()));
    assert_eq!(dict.find(&"".to_string()), None);
}

#[test]
fn insert_binds_and_rebinds() {
    let mut dict: Dict<u64> = Dict::new();
    dict.insert("a".to_string(), 1);
    dict.insert("b".to_string(), 2);
    assert_eq!(dict.get(&"a".to_string()), Some(&1));
    assert_eq!(dict.get(&"b".to_string()), Some(&2));
    assert_eq!(dict.get(&"c".to_string()), None);
    dict.insert("a".to_string(), 3);
    assert_eq!(dict.get(&"a".to_string()), Some(&3));
    assert_eq!(dict.get(&"b".to_string()), Some(&2));
    assert_eq!(dict.keys.len(), 2);
    assert_eq!(dict.values.len(), 2);
    assert!(dict.contains_key(&"b".to_string()));
    assert_eq!(dict.find(&"b".to_string()), Some(1));
}

#[test]
fn keys_are_compared_by_their_text() {
    let mut dict: Dict<&str> = Dict::new();
    dict.insert("".to_string(), "empty");
    dict.insert("a".to_string(), "a");
    dict.insert("A".to_string(), "A");
    dict.insert("a ".to_string(), "a blank");
    assert_eq!(dict.get(&String::new()), Some(&"empty"));
    assert_eq!(dict.get(&"A".to_string()), Some(&"A"));
    assert_eq!(dict.get(&"a ".to_string()), Some(&"a blank"));
    assert_eq!(dict.keys.len(), 4);
}
