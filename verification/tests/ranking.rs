use word_tally::count::count_words;
use word_tally::rank::rank;

#[test]
fn ranking_is_sorted_and_truncated() {
    let text = "b b b c c e e e e d";
    let t = count_words(text, false, false, 10);
    let out = rank(&t, 3);
    assert_eq!(out.len(), 3);
    assert_eq!(out[0].0, "e");
    assert_eq!(out[0].1, 4);
    assert_eq!(out[1].0, "b");
    assert_eq!(out[1].1, 3);
    assert_eq!(out[2].0, "c");
    assert_eq!(out[2].1, 2);
}

#[test]
fn ranking_shorter_table_is_whole_table() {
    let t = count_words("x y x", false, false, 10);
    let out = rank(&t, 10);
    assert_eq!(out.len(), 2);
    assert_eq!(out[0].0, "x");
    assert_eq!(out[0].1, 2);
    assert_eq!(out[1].0, "y");
    assert_eq!(out[1].1, 1);
}

#[test]
fn ranking_empty_table() {
    let t = count_words("", false, false, 10);
    let out = rank(&t, 10);
    assert!(out.is_empty());
}

#[test]
fn ranking_counts_never_increase() {
    let text = "one one one two two three four four four four";
    let t = count_words(text, false, false, 10);
    let out = rank(&t, 10);
    for w in out.windows(2) {
        assert!(w[0].1 >= w[1].1);
    }
}

#[test]
fn ranking_zero_keeps_nothing() {
    let t = count_words("q w e", false, false, 10);
    let out = rank(&t, 0);
    assert!(out.is_empty());
}
