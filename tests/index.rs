use search::document::Document;
use search::index::{Index, IndexError};

fn doc(fields: &[(&str, &str)]) -> Document {
    let mut d = Document::new();
    for (k, v) in fields {
        d.set_field(k.to_string(), v.to_string());
    }
    d
}

fn ids(index: &Index, q: &str) -> Vec<u32> {
    index.search_ids(q).iter().collect()
}

fn two_docs() -> Index {
    let mut index = Index::new();
    index
        .add_documents(vec![doc(&[("title", "Hello World")]), doc(&[("title", "Hello Rust")])])
        .unwrap();
    index.build();
    index
}

#[test]
fn and_semantics_on_two_documents() {
    let index = two_docs();
    assert_eq!(ids(&index, "hello"), vec![0, 1]);
    assert_eq!(ids(&index, "world"), vec![0]);
    assert_eq!(ids(&index, "rust"), vec![1]);
    assert_eq!(ids(&index, "hello rust"), vec![1]);
    assert_eq!(ids(&index, "missing"), Vec::<u32>::new());
}

#[test]
fn query_is_tokenized_like_documents() {
    let index = two_docs();
    assert_eq!(ids(&index, "  HELLO,  \"Rust\"!! "), vec![1]);
    assert_eq!(ids(&index, "world hello hello"), vec![0]);
}

#[test]
fn absent_term_empties_the_result() {
    let index = two_docs();
    assert!(index.search_ids("hello missing").is_empty());
    assert!(index.search("hello missing").is_empty());
}

#[test]
fn query_without_terms_matches_nothing() {
    let index = two_docs();
    assert!(index.search_ids("").is_empty());
    assert!(index.search_ids("  ... !! ").is_empty());
    assert!(index.search("").is_empty());
}

#[test]
fn ids_follow_staging_order() {
    let mut index = Index::new();
    index.add_documents(vec![doc(&[("a", "x first")]), doc(&[("a", "x second")])]).unwrap();
    index.add_documents(vec![doc(&[("a", "x third")])]).unwrap();
    index.build();
    let found = index.search("x");
    let got: Vec<u64> = found.iter().map(|d| d.id()).collect();
    assert_eq!(got, vec![0, 1, 2]);
    assert_eq!(found[2].get("a"), Some(&"x third".to_string()));
    assert_eq!(ids(&index, "second"), vec![1]);
}

#[test]
fn second_build_changes_nothing() {
    let mut index = two_docs();
    let before: Vec<Document> = index.search("hello");
    index.build();
    assert_eq!(index.search("hello"), before);
    assert_eq!(ids(&index, "world"), vec![0]);
    assert_eq!(ids(&index, "rust"), vec![1]);
}

#[test]
fn build_with_nothing_staged_keeps_staging() {
    let mut index = Index::new();
    index.build();
    assert_eq!(index.add_documents(vec![doc(&[("t", "late")])]), Ok(()));
    index.build();
    assert_eq!(ids(&index, "late"), vec![0]);
}

#[test]
fn nothing_is_searchable_before_build() {
    let mut index = Index::new();
    index.add_documents(vec![doc(&[("title", "Hello World")])]).unwrap();
    assert!(index.search_ids("hello").is_empty());
    assert!(index.search("hello").is_empty());
    assert!(index.search_ids("").is_empty());
}

#[test]
fn add_after_build_is_invalid_state() {
    let mut index = two_docs();
    let r = index.add_documents(vec![doc(&[("title", "Hello again")])]);
    assert_eq!(r, Err(IndexError::InvalidState));
    assert_eq!(ids(&index, "hello"), vec![0, 1]);
    assert!(index.search_ids("again").is_empty());
    index.build();
    assert!(index.search_ids("again").is_empty());
}

#[test]
fn search_returns_staged_fields() {
    let mut index = Index::new();
    let original = doc(&[("title", "Round Trip"), ("body", "Fields come back unchanged!"), ("empty", "")]);
    index.add_documents(vec![doc(&[("title", "other")]), original.duplicate()]).unwrap();
    index.build();
    let found = index.search("round");
    assert_eq!(found.len(), 1);
    assert_eq!(found[0].id(), 1);
    assert_eq!(found[0].len(), original.len());
    for name in ["title", "body", "empty"] {
        assert_eq!(found[0].get(name), original.get(name));
    }
    assert_eq!(found[0].get("body"), Some(&"Fields come back unchanged!".to_string()));
}

#[test]
fn search_caps_results_at_ten() {
    let mut index = Index::new();
    let docs: Vec<Document> = (0..12).map(|i| doc(&[("n", &format!("common doc{}", i))])).collect();
    index.add_documents(docs).unwrap();
    index.build();
    assert_eq!(index.search_ids("common").len(), 12);
    let found = index.search("common");
    assert_eq!(found.len(), 10);
    let got: Vec<u64> = found.iter().map(|d| d.id()).collect();
    assert_eq!(got, (0..10).collect::<Vec<u64>>());
    assert_eq!(found[3].get("n"), Some(&"common doc3".to_string()));
}

#[test]
fn intersection_uses_every_term() {
    let mut index = Index::new();
    index
        .add_documents(vec![
            doc(&[("a", "red green blue")]),
            doc(&[("a", "red green")]),
            doc(&[("a", "red"), ("b", "blue")]),
            doc(&[("a", "green"), ("b", "Blue!")]),
        ])
        .unwrap();
    index.build();
    assert_eq!(ids(&index, "red"), vec![0, 1, 2]);
    assert_eq!(ids(&index, "red green"), vec![0, 1]);
    assert_eq!(ids(&index, "blue red"), vec![0, 2]);
    assert_eq!(ids(&index, "green blue"), vec![0, 3]);
    assert_eq!(ids(&index, "red green blue"), vec![0]);
}

#[test]
fn terms_match_across_fields() {
    let mut index = Index::new();
    index.add_documents(vec![doc(&[("title", "Alpha"), ("body", "beta")])]).unwrap();
    index.build();
    assert_eq!(ids(&index, "alpha beta"), vec![0]);
}

#[test]
fn empty_index_builds_and_finds_nothing() {
    let mut index = Index::new();
    index.add_documents(vec![]).unwrap();
    index.build();
    assert!(index.search_ids("anything").is_empty());
}
