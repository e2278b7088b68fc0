use kartka::{ContentStore, KartkaError};

#[test]
fn put_then_get_returns_body() {
    let mut store = ContentStore::new();
    let r = store.put(String::from("2024_01_02_03_04_05.pdf"), String::from("hello\n"));
    assert!(r.is_ok());
    let got = store.get(&String::from("2024_01_02_03_04_05.pdf"));
    assert_eq!(got, Some(&String::from("hello\n")));
}

#[test]
fn put_twice_fails_and_keeps_first_value() {
    let mut store = ContentStore::new();
    let k = String::from("k.pdf");
    assert!(store.put(k.clone(), String::from("first")).is_ok());
    let second = store.put(k.clone(), String::from("second"));
    assert_eq!(second, Err(KartkaError::DuplicateIdentifier));
    assert_eq!(store.get(&k), Some(&String::from("first")));
}

#[test]
fn get_missing_is_none() {
    let store = ContentStore::new();
    assert_eq!(store.get(&String::from("absent")), None);
}

#[test]
fn list_identifiers_in_store_order() {
    let mut store = ContentStore::new();
    store.put(String::from("b"), String::from("2")).unwrap();
    store.put(String::from("a"), String::from("1")).unwrap();
    let ids = store.list_identifiers();
    assert_eq!(ids, vec![String::from("b"), String::from("a")]);
}

#[test]
fn error_messages_name_the_failure() {
    assert_eq!(
        KartkaError::DuplicateIdentifier.message(),
        "a record with this identifier already exists"
    );
    assert_eq!(KartkaError::ParseError.message(), "malformed search-tool output");
    assert_eq!(KartkaError::IoError.message(), "could not access a file or directory");
    assert_eq!(KartkaError::OcrError.message(), "text extraction failed");
    assert_eq!(KartkaError::ExternalToolError.message(), "an external tool failed");
}
