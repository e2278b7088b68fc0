use kartka::{
    assemble, collect_batch, mint_from_reading, mint_identifier, mint_now, ContentStore, Kartka,
    TimeParts,
};

#[test]
fn a_readable_clock_reading_mints_its_identifier() {
    let (parts, id) = mint_from_reading(2024, 3, 9, 7, 30, 5).unwrap();
    assert_eq!(
        parts,
        TimeParts { year: 2024, month: 3, day: 9, hour: 7, minute: 30, second: 5 }
    );
    assert_eq!(id, "2024_03_09_07_30_05.pdf");
}

#[test]
fn a_reading_before_year_zero_mints_nothing() {
    assert!(mint_from_reading(-44, 3, 15, 12, 0, 0).is_none());
    assert!(mint_from_reading(0, 1, 1, 0, 0, 0).is_some());
}

#[test]
fn minted_identifier_is_zero_padded_with_extension() {
    let p = TimeParts { year: 2024, month: 3, day: 9, hour: 7, minute: 30, second: 5 };
    assert_eq!(mint_identifier(&p), "2024_03_09_07_30_05.pdf");
}

#[test]
fn minted_identifier_pads_small_years() {
    let p = TimeParts { year: 42, month: 12, day: 31, hour: 23, minute: 59, second: 59 };
    assert_eq!(mint_identifier(&p), "0042_12_31_23_59_59.pdf");
}

#[test]
fn minted_identifier_at_the_largest_moment() {
    let p = TimeParts { year: 9999, month: 12, day: 31, hour: 23, minute: 59, second: 59 };
    assert_eq!(mint_identifier(&p), "9999_12_31_23_59_59.pdf");
}

#[test]
fn identifiers_of_different_seconds_differ() {
    let p1 = TimeParts { year: 2024, month: 1, day: 1, hour: 0, minute: 0, second: 1 };
    let p2 = TimeParts { year: 2024, month: 1, day: 1, hour: 0, minute: 0, second: 2 };
    assert_ne!(mint_identifier(&p1), mint_identifier(&p2));
}

#[test]
fn minting_now_reads_the_clock() {
    let (parts, id) = mint_now().expect("the clock reads a representable year");
    assert_eq!(id, mint_identifier(&parts));
    assert_eq!(id.len(), 23);
    assert!(id.ends_with(".pdf"));
    assert!(parts.year >= 2020);
}

#[test]
fn scan_produces_one_record_in_page_order() {
    // The scan path end to end, with OCR results standing in for the engine:
    // two non-hidden pages, ordered by name, assembled with one separator
    // each, stored once under the minted identifier.
    let entries = vec![
        Some(String::from("page-world.png")),
        Some(String::from(".DS_Store")),
        Some(String::from("page-hello.png")),
    ];
    let batch = collect_batch(&entries);
    assert_eq!(
        batch,
        vec![String::from("page-hello.png"), String::from("page-world.png")]
    );
    let texts = vec![String::from("Hello"), String::from("World")];
    let body = assemble(&texts);
    assert_eq!(body, "Hello\nWorld\n");
    let p = TimeParts { year: 2024, month: 3, day: 9, hour: 7, minute: 30, second: 5 };
    let id = mint_identifier(&p);
    let mut store = ContentStore::new();
    store.put(id.clone(), body).unwrap();
    assert_eq!(store.get(&id), Some(&String::from("Hello\nWorld\n")));
    assert_eq!(store.list_identifiers(), vec![id]);
}

#[test]
fn configuration_hands_back_its_directories() {
    let k = Kartka::new(String::from("/scans"), String::from("/index"));
    assert_eq!(k.scans(), "/scans");
    assert_eq!(k.index(), "/index");
}
