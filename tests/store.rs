use mtimer::StringStore;

#[test]
fn equal_strings_share_a_handle() {
    let mut store = StringStore::with_capacity(5);
    assert_eq!(store.get_handle("a.wav"), Some(0));
    assert_eq!(store.get_handle("b.wav"), Some(1));
    assert_eq!(store.get_handle("a.wav"), Some(0));
    assert_eq!(store.get_handle("c.wav"), Some(2));
    assert_eq!(store.get_handle("b.wav"), Some(1));
    assert_eq!(store.len(), 3);
}

#[test]
fn handles_lead_back_to_strings() {
    let mut store = StringStore::with_capacity(0);
    let a = store.get_handle("first.wav").unwrap();
    let b = store.get_handle("second.wav").unwrap();
    assert_eq!(store.index(a), "first.wav");
    assert_eq!(store.index(b), "second.wav");
}

#[test]
fn empty_string_is_a_string() {
    let mut store = StringStore::with_capacity(1);
    assert_eq!(store.get_handle(""), Some(0));
    assert_eq!(store.get_handle(""), Some(0));
    assert_eq!(store.len(), 1);
}
