use media_types::Parameters;

#[test]
fn test_parameters_insert_and_get() {
    let mut parameters = Parameters::new();
    assert!(parameters.is_empty());
    assert_eq!(parameters.len(), 0);
    assert_eq!(parameters.get("a"), None);
    assert_eq!(parameters.insert("b".into(), "1".into()), None);
    assert_eq!(parameters.insert("a".into(), "2".into()), None);
    assert_eq!(parameters.insert("c".into(), "3".into()), None);
    assert_eq!(parameters.len(), 3);
    assert!(!parameters.is_empty());
    assert_eq!(parameters.get("a"), Some(&"2".to_string()));
    assert_eq!(parameters.get("b"), Some(&"1".to_string()));
    assert_eq!(parameters.get("c"), Some(&"3".to_string()));
    assert_eq!(parameters.get("d"), None);
    assert_eq!(parameters.get(""), None);
    assert!(parameters.contains_key("a"));
    assert!(!parameters.contains_key("A"));
    assert_eq!(parameters.insert("b".into(), "4".into()), Some("1".to_string()));
    assert_eq!(parameters.len(), 3);
    assert_eq!(parameters.get("b"), Some(&"4".to_string()));
}

#[test]
fn test_parameters_order() {
    let mut parameters = Parameters::new();
    for key in ["z", "b", "", "ab", "a", "B", "\u{e9}", "abc", "~"] {
        parameters.insert(key.into(), key.to_uppercase());
    }
    let keys: Vec<&str> = (0..parameters.len()).map(|i| parameters.key_at(i).as_str()).collect();
    assert_eq!(keys, vec!["", "B", "a", "ab", "abc", "b", "z", "~", "\u{e9}"]);
    assert_eq!(parameters.value_at(3), "AB");
    assert_eq!(parameters.value_at(0), "");
}

#[test]
fn test_parameters_remove() {
    let mut parameters = Parameters::new();
    parameters.insert("a".into(), "1".into());
    parameters.insert("b".into(), "2".into());
    parameters.insert("c".into(), "3".into());
    assert_eq!(parameters.remove("d"), None);
    assert_eq!(parameters.len(), 3);
    assert_eq!(parameters.remove("b"), Some("2".to_string()));
    assert_eq!(parameters.len(), 2);
    assert_eq!(parameters.get("b"), None);
    assert_eq!(parameters.key_at(0), "a");
    assert_eq!(parameters.key_at(1), "c");
    assert_eq!(parameters.remove("b"), None);
    assert_eq!(parameters.remove("a"), Some("1".to_string()));
    assert_eq!(parameters.remove("c"), Some("3".to_string()));
    assert!(parameters.is_empty());
}

#[test]
fn test_parameters_equality() {
    let mut first = Parameters::new();
    first.insert("a".into(), "1".into());
    first.insert("b".into(), "2".into());
    let mut second = Parameters::new();
    second.insert("b".into(), "2".into());
    assert_ne!(first, second);
    second.insert("a".into(), "1".into());
    assert_eq!(first, second);
    second.insert("a".into(), "3".into());
    assert_ne!(first, second);
    assert_eq!(first.clone(), first);
    let mut third = Parameters::new();
    third.insert("a".into(), "1".into());
    third.insert("c".into(), "2".into());
    assert_ne!(first, third);
    assert_eq!(Parameters::new(), Parameters::new());
}
