//! Search-term gathering tests.

use docket::search::TermFrequenciesBuilder;

#[test]
fn add_terms_splits_and_lowercases() {
    let mut builder = TermFrequenciesBuilder::new();
    builder.add_terms("a test a string");
    let terms: Vec<&str> = builder.occurrences().iter().map(|s| s.as_str()).collect();
    assert_eq!(vec!["a", "test", "a", "string"], terms);
}

#[test]
fn add_terms_drops_markup_and_punctuation() {
    let mut builder = TermFrequenciesBuilder::new();
    builder.add_terms("<p>ORANGE, MARMALADE!</p>");
    let terms: Vec<&str> = builder.occurrences().iter().map(|s| s.as_str()).collect();
    assert_eq!(vec!["p", "orange", "marmalade", "p"], terms);
}

#[test]
fn add_terms_accumulates_across_calls() {
    let mut builder = TermFrequenciesBuilder::new();
    builder.add_terms("down the");
    builder.add_terms("rabbit hole");
    let terms: Vec<&str> = builder.occurrences().iter().map(|s| s.as_str()).collect();
    assert_eq!(vec!["down", "the", "rabbit", "hole"], terms);
}

#[test]
fn add_terms_ignores_empty_runs() {
    let mut builder = TermFrequenciesBuilder::new();
    builder.add_terms("  -- !! ");
    assert_eq!(0, builder.occurrences().len());
}
