use kartka::{
    basename, match_identifiers, parse_hits, preview_link, query_is_searchable,
    search_identifiers, KartkaError, SearchHit,
};

fn lines(v: &[&str]) -> Vec<String> {
    v.iter().map(|s| String::from(*s)).collect()
}

#[test]
fn search_dedup_reduces_matches_to_identifier_set() {
    let raw = lines(&[
        r#"{"type":"begin","data":{"path":{"text":"./doc1.txt"}}}"#,
        r#"{"type":"match","data":{"path":{"text":"./doc1.txt"}}}"#,
        r#"{"type":"match","data":{"path":{"text":"./doc1.txt"}}}"#,
        r#"{"type":"match","data":{"path":{"text":"./doc1.txt"}}}"#,
        r#"{"type":"match","data":{"path":{"text":"./doc2.txt"}}}"#,
        r#"{"type":"end","data":{"path":{"text":"./doc1.txt"}}}"#,
    ]);
    let ids = search_identifiers(&raw).unwrap();
    assert_eq!(ids, vec![String::from("doc1.txt"), String::from("doc2.txt")]);
}

#[test]
fn malformed_line_is_a_hard_parse_error() {
    let raw = lines(&[
        r#"{"type":"match","data":{"path":{"text":"./doc1.txt"}}}"#,
        "not json at all",
    ]);
    assert_eq!(search_identifiers(&raw), Err(KartkaError::ParseError));
}

#[test]
fn record_missing_consumed_fields_is_a_parse_error() {
    let raw = lines(&[r#"{"type":"match","data":{}}"#]);
    assert_eq!(search_identifiers(&raw), Err(KartkaError::ParseError));
}

#[test]
fn parse_hits_reads_type_and_path_fields() {
    let raw = lines(&[r#"{"type":"match","data":{"path":{"text":"a/b/c.txt"}},"extra":1}"#]);
    let hits = parse_hits(&raw).unwrap();
    assert_eq!(hits.len(), 1);
    assert_eq!(hits[0].kind, "match");
    assert_eq!(hits[0].path, "a/b/c.txt");
}

#[test]
fn non_match_rows_contribute_nothing() {
    let hits = vec![
        SearchHit { kind: String::from("begin"), path: String::from("./doc1.txt") },
        SearchHit { kind: String::from("context"), path: String::from("./doc2.txt") },
    ];
    assert!(match_identifiers(&hits).is_empty());
}

#[test]
fn basename_takes_the_final_path_component() {
    assert_eq!(basename("./dir/doc1.txt"), "doc1.txt");
    assert_eq!(basename("doc2.txt"), "doc2.txt");
    assert_eq!(basename(""), "");
}

#[test]
fn empty_query_is_not_forwarded() {
    assert!(!query_is_searchable(""));
    assert!(query_is_searchable("tax"));
}

#[test]
fn preview_link_embeds_the_identifier() {
    let link = preview_link(&String::from("2024_03_09_07_30_05.pdf"));
    assert_eq!(
        link,
        "https://www.dropbox.com/home/Apps/kartka?preview=2024_03_09_07_30_05.pdf"
    );
}
