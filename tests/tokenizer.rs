use search::tokenizer::Tokenizer;

fn toks(text: &str) -> Vec<String> {
    Tokenizer::new().tokenize(text)
}

#[test]
fn tokenize_hello_world() {
    assert_eq!(toks("Hello, World!"), vec!["hello".to_string(), "world".to_string()]);
}

#[test]
fn tokenize_empty_text() {
    assert!(toks("").is_empty());
}

#[test]
fn tokenize_whitespace_only() {
    assert!(toks(" \t\n  \r\n").is_empty());
}

#[test]
fn tokenize_drops_punctuation_only_chunks() {
    assert_eq!(toks("-- ... a !!"), vec!["a".to_string()]);
}

#[test]
fn tokenize_keeps_inner_punctuation() {
    assert_eq!(toks("(rust-lang) e.g."), vec!["rust-lang".to_string(), "e.g".to_string()]);
}

#[test]
fn tokenize_splits_on_every_kind_of_whitespace() {
    assert_eq!(
        toks("one\ttwo\nthree\u{3000}four"),
        vec!["one".to_string(), "two".to_string(), "three".to_string(), "four".to_string()]
    );
}

#[test]
fn tokenize_lowercases_unicode() {
    assert_eq!(toks("ÉCOLE Straße ΣΟΦΙΑ"), vec!["école".to_string(), "straße".to_string(), "σοφια".to_string()]);
}

#[test]
fn tokenize_keeps_lowercase_and_digits() {
    assert_eq!(toks("abc 123 x9"), vec!["abc".to_string(), "123".to_string(), "x9".to_string()]);
}

#[test]
fn tokenize_terms_have_no_outer_punctuation() {
    for t in toks("¡Hola! ...¿qué tal?... [x] {y} \"quoted\" 'it's'") {
        let first = t.chars().next().unwrap();
        let last = t.chars().last().unwrap();
        assert!(first.is_alphanumeric(), "{}", t);
        assert!(last.is_alphanumeric(), "{}", t);
    }
}

#[test]
fn tokenize_lowercases_titlecase_letters() {
    assert_eq!(toks("\u{1C5}ungla"), vec!["\u{1C6}ungla".to_string()]);
}

#[test]
fn tokenize_splits_on_unicode_spaces() {
    assert_eq!(toks("a\u{85}b\u{a0}c\u{2009}d\u{202f}e"), vec!["a", "b", "c", "d", "e"]);
    assert_eq!(toks("a\u{200b}b"), vec!["a\u{200b}b".to_string()]);
}
