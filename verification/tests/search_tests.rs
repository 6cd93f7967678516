use tinysearch::filter::build_filter;
use tinysearch::score::Score;
use tinysearch::storage::{generate_filters, PostId, Storage};
use tinysearch::tokenizer::tokenize;

fn post_id(source: &str, name: &str) -> PostId {
    (source.to_string(), name.to_string())
}

fn query(terms: &[&str]) -> Vec<String> {
    terms.iter().map(|t| t.to_string()).collect()
}

#[test]
fn self_score_identity() {
    let tokens = tokenize("The quick brown fox jumps over the lazy dog");
    let filter = build_filter(&tokens).unwrap();
    assert_eq!(filter.score(&tokens) as usize, tokens.len());
}

#[test]
fn empty_query_scores_zero() {
    let tokens = tokenize("some words in here");
    let filter = build_filter(&tokens).unwrap();
    assert_eq!(filter.score(&Vec::new()), 0);
}

#[test]
fn score_counts_duplicates_independently() {
    let tokens = tokenize("alpha beta");
    let filter = build_filter(&tokens).unwrap();
    assert_eq!(filter.score(&query(&["alpha", "alpha"])), 2);
}

#[test]
fn score_folds_query_terms() {
    let tokens = tokenize("alpha beta");
    let filter = build_filter(&tokens).unwrap();
    assert_eq!(filter.score(&query(&["ALPHA", "Beta"])), 2);
}

#[test]
fn membership_after_build() {
    let tokens = tokenize("foo bar xylophone milagro");
    let filter = build_filter(&tokens).unwrap();
    for t in &tokens {
        assert!(filter.contains(t));
    }
}

#[test]
fn end_to_end_two_documents() {
    let posts = vec![
        (post_id("blog", "doc1"), "Rust is great".to_string()),
        (post_id("blog", "doc2"), "Go is great too".to_string()),
    ];
    let filters = generate_filters(posts).unwrap();
    let storage = Storage::from(filters);
    assert_eq!(storage.filters.len(), 2);
    let q = query(&["great", "rust"]);
    assert_eq!(storage.filters[0].0, post_id("blog", "doc1"));
    assert_eq!(storage.filters[0].1.score(&q), 2);
    assert_eq!(storage.filters[1].0, post_id("blog", "doc2"));
    assert_eq!(storage.filters[1].1.score(&q), 1);
}

#[test]
fn empty_document_still_gets_an_entry() {
    let posts = vec![
        (post_id("blog", "empty"), "".to_string()),
        (post_id("blog", "full"), "words here".to_string()),
    ];
    let filters = generate_filters(posts).unwrap();
    assert_eq!(filters.len(), 2);
    assert_eq!(filters[0].1.score(&query(&["words"])), 0);
    assert_eq!(filters[1].1.score(&query(&["words"])), 1);
}

#[test]
fn empty_token_list_builds_an_empty_filter() {
    let filter = build_filter(&Vec::new()).unwrap();
    assert!(!filter.contains("anything"));
    assert_eq!(filter.score(&query(&["a", "b", "c"])), 0);
}

#[test]
fn empty_corpus_builds_successfully() {
    let filters = generate_filters(Vec::new()).unwrap();
    assert!(filters.is_empty());
}

#[test]
fn bounded_false_positive_rate() {
    let tokens: Vec<String> = (0..50).map(|i| format!("present{i}")).collect();
    let filter = build_filter(&tokens).unwrap();
    let trials: u32 = 2000;
    let mut hits: u32 = 0;
    for i in 0..trials {
        let probe = vec![format!("absent-{i}-zzz")];
        hits += filter.score(&probe);
    }
    // Well under a 5% false-positive bound; 8-bit fingerprints give ~2/256.
    assert!(hits * 20 < trials, "false positive rate too high: {hits}/{trials}");
}
