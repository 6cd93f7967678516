use tinysearch::tokenizer::tokenize;

fn token_sets_equal(a: Vec<String>, b: Vec<String>) -> bool {
    let mut a = a;
    let mut b = b;
    a.sort();
    b.sort();
    a == b
}

#[test]
fn normalization_case_folding() {
    let upper = tokenize("Hello World");
    let lower = tokenize("hello world");
    assert!(token_sets_equal(upper.clone(), lower));
    assert!(token_sets_equal(
        upper,
        vec!["hello".to_string(), "world".to_string()]
    ));
}

#[test]
fn normalization_multiple_spaces() {
    let toks = tokenize("a   b");
    assert!(token_sets_equal(
        toks,
        vec!["a".to_string(), "b".to_string()]
    ));
}

#[test]
fn normalization_empty_input() {
    assert!(tokenize("").is_empty());
    assert!(tokenize("   \t\n  ").is_empty());
}

#[test]
fn duplicates_collapse() {
    let toks = tokenize("rust RUST Rust rust");
    assert_eq!(toks, vec!["rust".to_string()]);
}

#[test]
fn punctuation_is_kept() {
    let toks = tokenize("great, great!");
    assert!(token_sets_equal(
        toks,
        vec!["great,".to_string(), "great!".to_string()]
    ));
}

#[test]
fn uppercase_is_folded_not_passed_through() {
    assert_eq!(tokenize("HELLO"), vec!["hello".to_string()]);
    assert_eq!(tokenize("ÄRGER"), vec!["ärger".to_string()]);
}

#[test]
fn unicode_whitespace_splits() {
    let toks = tokenize("one\u{2003}two\u{00a0}three");
    assert!(token_sets_equal(
        toks,
        vec!["one".to_string(), "two".to_string(), "three".to_string()]
    ));
}
