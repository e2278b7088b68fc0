use kartka::{assemble, collect_batch, sort_names, str_lex_le};

fn names(v: &[&str]) -> Vec<Option<String>> {
    v.iter().map(|s| Some(String::from(*s))).collect()
}

#[test]
fn batch_is_ordered_by_name_not_listing_order() {
    let batch = collect_batch(&names(&["a.png", "c.png", "b.png"]));
    assert_eq!(
        batch,
        vec![String::from("a.png"), String::from("b.png"), String::from("c.png")]
    );
}

#[test]
fn hidden_entries_are_excluded_without_failure() {
    let mut entries = names(&["page2.png", "page1.png"]);
    entries.push(Some(String::from(".DS_Store")));
    let batch = collect_batch(&entries);
    assert_eq!(batch, vec![String::from("page1.png"), String::from("page2.png")]);
}

#[test]
fn unreadable_entries_are_excluded() {
    let entries = vec![Some(String::from("z.png")), None, Some(String::from("a.png"))];
    let batch = collect_batch(&entries);
    assert_eq!(batch, vec![String::from("a.png"), String::from("z.png")]);
}

#[test]
fn empty_listing_gives_empty_batch() {
    let batch = collect_batch(&Vec::new());
    assert!(batch.is_empty());
}

#[test]
fn sort_keeps_duplicates() {
    let sorted = sort_names(vec![
        String::from("b"),
        String::from("a"),
        String::from("b"),
    ]);
    assert_eq!(sorted, vec![String::from("a"), String::from("b"), String::from("b")]);
}

#[test]
fn lexicographic_order_is_bytewise_ascending() {
    assert!(str_lex_le("a.png", "b.png"));
    assert!(!str_lex_le("b.png", "a.png"));
    assert!(str_lex_le("a", "a.png"));
    assert!(str_lex_le("same", "same"));
    assert!(str_lex_le("", "x"));
    assert!(str_lex_le("A", "a"));
}

#[test]
fn assembled_body_joins_pages_with_newlines() {
    let body = assemble(&vec![String::from("Hello"), String::from("World")]);
    assert_eq!(body, "Hello\nWorld\n");
}

#[test]
fn assembled_body_of_no_pages_is_empty() {
    let body = assemble(&Vec::new());
    assert_eq!(body, "");
}
