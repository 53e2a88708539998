use search::document::Document;

#[test]
fn new_document_is_empty() {
    let d = Document::new();
    assert_eq!(d.len(), 0);
    assert_eq!(d.id(), 0);
    assert_eq!(d.get("x"), None);
}

#[test]
fn set_field_replaces_value() {
    let mut d = Document::new();
    d.set_field("title".to_string(), "one".to_string());
    d.set_field("body".to_string(), "text".to_string());
    d.set_field("title".to_string(), "two".to_string());
    assert_eq!(d.len(), 2);
    assert_eq!(d.get("title"), Some(&"two".to_string()));
    assert_eq!(d.get("body"), Some(&"text".to_string()));
    assert_eq!(d.get("other"), None);
}

#[test]
fn duplicate_is_equal() {
    let mut d = Document::new();
    d.set_field("k".to_string(), "v".to_string());
    let c = d.duplicate();
    assert_eq!(c, d);
    assert_eq!(c.get("k"), Some(&"v".to_string()));
}

#[test]
fn document_terms_follow_fields() {
    let mut d = Document::new();
    d.set_field("a".to_string(), "Hi there".to_string());
    d.set_field("b".to_string(), "x!".to_string());
    let got: Vec<String> = d.terms().iter().map(|t| t.iter().collect()).collect();
    assert_eq!(got, vec!["hi".to_string(), "there".to_string(), "x".to_string()]);
}
