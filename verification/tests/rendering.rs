use word_tally::count::count_words;
use word_tally::rank::rank;
use word_tally::render::{format_count, render};

#[test]
fn format_count_exact_values() {
    assert_eq!(format_count(0), "0");
    assert_eq!(format_count(7), "7");
    assert_eq!(format_count(10), "10");
    assert_eq!(format_count(12345), "12345");
}

#[test]
fn empty_input_renders_header_only() {
    let t = count_words("", false, false, 10);
    let ranked = rank(&t, 10);
    let lines = render(&ranked, 10);
    assert_eq!(lines.len(), 1);
    assert_eq!(lines[0], "Limit = 10:");
}

#[test]
fn render_lists_words_with_counts() {
    let t = count_words("dog dog bird", false, false, 10);
    let ranked = rank(&t, 10);
    let lines = render(&ranked, 10);
    assert_eq!(lines.len(), 3);
    assert_eq!(lines[0], "Limit = 10:");
    assert_eq!(lines[1], "dog: 2");
    assert_eq!(lines[2], "bird: 1");
}
