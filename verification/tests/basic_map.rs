use ternary_tree::Tst;

#[test]
fn insert_get_remove_roundtrip() {
    let mut t: Tst<u32> = Tst::new();
    assert_eq!(t.len(), 0);
    assert_eq!(t.insert("abc", 1), None);
    assert_eq!(t.len(), 1);
    assert_eq!(t.get("abc"), Some(&1));
    assert_eq!(t.insert("abc", 2), Some(1));
    assert_eq!(t.len(), 1);
    assert_eq!(t.get("abc"), Some(&2));
    assert_eq!(t.get("ab"), None);
    assert_eq!(t.remove("abc"), Some(2));
    assert_eq!(t.len(), 0);
    assert_eq!(t.get("abc"), None);
    assert_eq!(t.remove("abc"), None);
}

#[test]
fn empty_key_is_inert() {
    let mut t: Tst<u32> = Tst::new();
    assert_eq!(t.insert("", 7), None);
    assert_eq!(t.len(), 0);
    assert_eq!(t.get(""), None);
    assert_eq!(t.remove(""), None);
}
