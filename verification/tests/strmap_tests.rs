use ckan::strmap::StrMap;

#[test]
fn insert_get_replace_remove() {
    let mut m: StrMap<u64> = StrMap::new();
    assert!(!m.contains_key(&"a".to_string()));
    m.insert("a".to_string(), 1);
    m.insert("b".to_string(), 2);
    m.insert("a".to_string(), 3);
    assert_eq!(m.get(&"a".to_string()), Some(&3));
    assert_eq!(m.get(&"b".to_string()), Some(&2));
    assert_eq!(m.entries().len(), 2);
    m.remove(&"a".to_string());
    assert_eq!(m.get(&"a".to_string()), None);
    m.remove(&"zz".to_string());
    assert_eq!(m.entries().len(), 1);
}

#[test]
fn retain_keys_keeps_only_listed_keys() {
    let mut m: StrMap<u64> = StrMap::new();
    m.insert("%1".to_string(), 1);
    m.insert("%2".to_string(), 2);
    m.insert("%3".to_string(), 3);
    m.retain_keys(&["%3".to_string(), "%9".to_string(), "%1".to_string()]);
    assert_eq!(
        m.entries().clone(),
        vec![("%1".to_string(), 1), ("%3".to_string(), 3)]
    );
}
