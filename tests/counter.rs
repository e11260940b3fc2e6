use std::collections::HashMap;

use word_counter::counter::{format_entry, WordCounts};

fn count_text(text: &str) -> HashMap<String, u64> {
    let mut counts = WordCounts::new();
    for line in text.lines() {
        counts.add_line(line);
    }
    let mut out = HashMap::new();
    for (word, count) in counts.into_entries() {
        let word: String = word.into_iter().collect();
        assert!(out.insert(word, count).is_none());
    }
    out
}

fn expect(pairs: &[(&str, u64)]) -> HashMap<String, u64> {
    pairs.iter().map(|(w, c)| (w.to_string(), *c)).collect()
}

#[test]
fn counts_words_over_lines() {
    let got = count_text("the cat sat on the mat\nthe cat ran\n");
    let want = expect(&[("the", 3), ("cat", 2), ("sat", 1), ("on", 1), ("mat", 1), ("ran", 1)]);
    assert_eq!(got, want);
}

#[test]
fn empty_input_has_no_entries() {
    assert!(count_text("").is_empty());
    assert!(WordCounts::new().into_entries().is_empty());
}

#[test]
fn consecutive_spaces_leave_empty_words() {
    let got = count_text("a  b   c\n");
    let want = expect(&[("a", 1), ("b", 1), ("c", 1), ("", 3)]);
    assert_eq!(got, want);
}

#[test]
fn an_empty_line_is_one_empty_word() {
    let got = count_text("x\n\nx\n");
    assert_eq!(got, expect(&[("x", 2), ("", 1)]));
}

#[test]
fn lines_are_trimmed_before_splitting() {
    let got = count_text("  \tdog cat \t \n");
    assert_eq!(got, expect(&[("dog", 1), ("cat", 1)]));
}

#[test]
fn tabs_inside_a_line_stay_in_words() {
    let got = count_text("a\tb c\n");
    assert_eq!(got, expect(&[("a\tb", 1), ("c", 1)]));
}

#[test]
fn words_are_case_sensitive() {
    let got = count_text("The the THE\n");
    assert_eq!(got, expect(&[("The", 1), ("the", 1), ("THE", 1)]));
}

#[test]
fn add_words_splits_untrimmed_text() {
    let mut counts = WordCounts::new();
    let text: Vec<char> = " a ".chars().collect();
    counts.add_words(&text);
    assert_eq!(counts.total(), 3);
    let entries = counts.into_entries();
    assert_eq!(entries.len(), 2);
}

#[test]
fn total_counts_every_word() {
    let mut counts = WordCounts::new();
    counts.add_line("one two one");
    counts.add_word("one".chars().collect());
    assert_eq!(counts.total(), 4);
    let entries = counts.into_entries();
    let one: Vec<char> = "one".chars().collect();
    let found = entries.iter().find(|(w, _)| *w == one).map(|(_, c)| *c);
    assert_eq!(found, Some(3));
}

#[test]
fn entry_line_format() {
    let word: Vec<char> = "the".chars().collect();
    let line: String = format_entry(&word, 7).into_iter().collect();
    assert_eq!(line, "the : 7\n");
    let empty: String = format_entry(&Vec::new(), 120).into_iter().collect();
    assert_eq!(empty, " : 120\n");
}

#[test]
fn unicode_words_are_counted_whole() {
    let got = count_text("\u{3000}café café\u{3000}\n");
    assert_eq!(got, expect(&[("café", 2)]));
}
