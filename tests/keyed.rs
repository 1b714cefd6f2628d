use email_manager::KeyedVec;

#[test]
fn keyed_insert_replaces_and_remove_takes_out() {
    let mut k: KeyedVec<u32> = KeyedVec::new();
    k.insert("a".to_string(), 1);
    k.insert("b".to_string(), 2);
    k.insert("a".to_string(), 3);
    assert_eq!(k.len(), 2);
    assert_eq!(k.get(&"a".to_string()), Some(&3));
    k.remove(&"a".to_string());
    assert!(!k.contains_key(&"a".to_string()));
    assert_eq!(k.len(), 1);
    let (key, value) = k.entry(0);
    assert_eq!(key, "b");
    assert_eq!(*value, 2);
    *k.get_mut(&"b".to_string()).unwrap() = 7;
    assert_eq!(k.get(&"b".to_string()), Some(&7));
    assert!(k.get_mut(&"z".to_string()).is_none());
}
