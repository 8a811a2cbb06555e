use dirsync::keytable::KeyTable;

#[test]
fn keys_are_found_at_their_places() {
    let mut table = KeyTable::new();
    assert_eq!(table.len(), 0);
    assert_eq!(table.find("a"), None);
    table.push("a".to_string());
    table.push("".to_string());
    table.push("ä".to_string());
    assert_eq!(table.len(), 3);
    assert_eq!(table.find("a"), Some(0));
    assert_eq!(table.find(""), Some(1));
    assert_eq!(table.find("ä"), Some(2));
    assert_eq!(table.find("A"), None);
    assert_eq!(table.find("a "), None);
    table.clear();
    assert_eq!(table.len(), 0);
    assert_eq!(table.find("a"), None);
    table.push("a".to_string());
    assert_eq!(table.find("a"), Some(0));
}

#[test]
fn many_keys_are_found() {
    let mut table = KeyTable::new();
    for i in 0..20_000 {
        table.push(format!("key-{}", i));
    }
    assert_eq!(table.len(), 20_000);
    for i in (0..20_000).step_by(7) {
        assert_eq!(table.find(&format!("key-{}", i)), Some(i));
    }
    assert_eq!(table.find("key-20000"), None);
    assert_eq!(table.find("key"), None);
}
