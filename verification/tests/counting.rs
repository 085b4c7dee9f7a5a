use word_tally::count::count_words;
use word_tally::stopwords::ignored_words;
use word_tally::table::FrequencyTable;
use word_tally::tokens::tokenize;

const SAMPLE: &str = "The cat sat on the mat. THE CAT RAN.";

#[test]
fn tokenize_splits_on_delimiters() {
    let toks = tokenize("The cat sat on the mat. THE CAT RAN.");
    let words: Vec<&str> = toks.iter().map(|t| t.as_str()).collect();
    assert_eq!(
        words,
        vec!["The", "cat", "sat", "on", "the", "mat", "THE", "CAT", "RAN"]
    );
}

#[test]
fn tokenize_handles_digits_and_underscore() {
    let toks = tokenize("a_b2 c-d  42");
    let words: Vec<&str> = toks.iter().map(|t| t.as_str()).collect();
    assert_eq!(words, vec!["a_b2", "c", "d", "42"]);
}

#[test]
fn tokenize_empty_input() {
    let toks = tokenize("");
    assert!(toks.is_empty());
}

#[test]
fn ignored_words_list() {
    let list = ignored_words();
    assert_eq!(list.len(), 17);
    assert!(list.contains(&"the"));
    assert!(list.contains(&"on"));
    assert!(!list.contains(&"cat"));
}

#[test]
fn case_insensitive_excluding_common() {
    let t = count_words(SAMPLE, false, false, 10);
    assert_eq!(t.get("cat"), Some(2));
    assert_eq!(t.get("sat"), Some(1));
    assert_eq!(t.get("mat"), Some(1));
    assert_eq!(t.get("ran"), Some(1));
    assert_eq!(t.get("the"), None);
    assert_eq!(t.get("on"), None);
    assert_eq!(t.len(), 4);
}

#[test]
fn include_common_keeps_stop_words() {
    let t = count_words(SAMPLE, true, false, 10);
    assert_eq!(t.get("cat"), Some(2));
    assert_eq!(t.get("sat"), Some(1));
    assert_eq!(t.get("mat"), Some(1));
    assert_eq!(t.get("ran"), Some(1));
    assert_eq!(t.get("the"), Some(3));
    assert_eq!(t.get("on"), Some(1));
    assert_eq!(t.len(), 6);
}

#[test]
fn case_sensitive_keeps_distinct_casings() {
    let t = count_words(SAMPLE, false, true, 10);
    assert_eq!(t.get("The"), Some(1));
    assert_eq!(t.get("cat"), Some(1));
    assert_eq!(t.get("CAT"), Some(1));
    assert_eq!(t.get("THE"), Some(1));
    assert_eq!(t.get("sat"), Some(1));
    assert_eq!(t.get("mat"), Some(1));
    assert_eq!(t.get("RAN"), Some(1));
    // The stop-word check is case-sensitive against the lowercase
    // list, so the lowercase token is still filtered out.
    assert_eq!(t.get("the"), None);
    assert_eq!(t.get("on"), None);
}

#[test]
fn empty_input_gives_empty_table() {
    let t = count_words("", false, false, 10);
    assert_eq!(t.len(), 0);
    assert_eq!(t.get("the"), None);
}

#[test]
fn max_length_three_filters_longer_words() {
    let t = count_words("sat mat. cats", false, false, 3);
    assert_eq!(t.get("sat"), Some(1));
    assert_eq!(t.get("mat"), Some(1));
    assert_eq!(t.get("cats"), None);
    assert_eq!(t.len(), 2);
}

#[test]
fn folding_reaches_the_table_keys() {
    let t = count_words("A", false, false, 10);
    assert_eq!(t.get("a"), None); // "a" is a stop word once folded
    let t2 = count_words("B", false, false, 10);
    assert_eq!(t2.get("b"), Some(1));
    assert_eq!(t2.get("B"), None);
}

#[test]
fn aggregation_is_repeatable() {
    let a = count_words(SAMPLE, false, false, 10);
    let b = count_words(SAMPLE, false, false, 10);
    for w in ["cat", "sat", "mat", "ran", "the", "on"] {
        assert_eq!(a.get(w), b.get(w));
    }
    assert_eq!(a.len(), b.len());
}

#[test]
fn sum_of_counts_matches_accepted_tokens() {
    // Nine tokens, four stop-word occurrences once folded: five accepted.
    let t = count_words(SAMPLE, false, false, 10);
    let total: usize = ["cat", "sat", "mat", "ran"]
        .iter()
        .map(|w| t.get(w).unwrap_or(0))
        .sum();
    assert_eq!(total, 5);
    assert_eq!(t.len(), 4);
}

#[test]
fn new_table_is_empty() {
    let t = FrequencyTable::new();
    assert_eq!(t.len(), 0);
    assert_eq!(t.get("anything"), None);
}
