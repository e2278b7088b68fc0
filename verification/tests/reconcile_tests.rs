use kartka::{missing_identifiers, ContentStore, KartkaError};

fn strs(v: &[&str]) -> Vec<String> {
    v.iter().map(|s| String::from(*s)).collect()
}

#[test]
fn missing_is_remote_minus_local_in_remote_order() {
    let remote = strs(&["A", "B", "C"]);
    let local = strs(&["A"]);
    assert_eq!(missing_identifiers(&remote, &local), strs(&["B", "C"]));
}

#[test]
fn missing_is_empty_when_local_covers_remote() {
    let remote = strs(&["A", "B"]);
    let local = strs(&["B", "A", "extra"]);
    assert!(missing_identifiers(&remote, &local).is_empty());
}

#[test]
fn missing_drops_repeated_remote_entries() {
    let remote = strs(&["A", "B", "A", "C", "B"]);
    let local = strs(&["C"]);
    assert_eq!(missing_identifiers(&remote, &local), strs(&["A", "B"]));
}

#[test]
fn hydrate_converges_to_union_of_local_and_remote() {
    let mut store = ContentStore::new();
    store.put(String::from("A"), String::from("a\n")).unwrap();
    let remote = strs(&["A", "B", "C"]);
    let missing = store.missing_from_remote(&remote);
    assert_eq!(missing, strs(&["B", "C"]));
    let batches = vec![strs(&["page b"]), strs(&["page c1", "page c2"])];
    let pulled = store.hydrate_apply(&missing, &batches).unwrap();
    assert_eq!(pulled, 2);
    assert_eq!(store.list_identifiers(), strs(&["A", "B", "C"]));
    assert_eq!(store.get(&String::from("B")), Some(&String::from("page b\n")));
    assert_eq!(
        store.get(&String::from("C")),
        Some(&String::from("page c1\npage c2\n"))
    );
}

#[test]
fn hydrate_with_nothing_missing_pulls_zero_items() {
    let mut store = ContentStore::new();
    store.put(String::from("A"), String::from("a\n")).unwrap();
    let remote = strs(&["A"]);
    let missing = store.missing_from_remote(&remote);
    assert!(missing.is_empty());
    let pulled = store.hydrate_apply(&missing, &Vec::new()).unwrap();
    assert_eq!(pulled, 0);
    assert_eq!(store.list_identifiers(), strs(&["A"]));
}

#[test]
fn hydrate_fails_fast_on_an_identifier_already_stored() {
    let mut store = ContentStore::new();
    store.put(String::from("A"), String::from("a\n")).unwrap();
    let missing = strs(&["B", "A"]);
    let batches = vec![strs(&["b"]), strs(&["clash"])];
    let r = store.hydrate_apply(&missing, &batches);
    assert_eq!(r, Err(KartkaError::DuplicateIdentifier));
    // fail-fast: the item before the collision stays stored
    assert_eq!(store.list_identifiers(), strs(&["A", "B"]));
    assert_eq!(store.get(&String::from("A")), Some(&String::from("a\n")));
}

#[test]
fn ingest_keeps_the_given_identifier() {
    let mut store = ContentStore::new();
    let pages = strs(&["Hello", "World"]);
    store.ingest(&String::from("remote-name.pdf"), &pages).unwrap();
    assert_eq!(
        store.get(&String::from("remote-name.pdf")),
        Some(&String::from("Hello\nWorld\n"))
    );
}
