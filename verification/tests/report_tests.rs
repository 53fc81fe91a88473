use textfreq::Report;

#[test]
fn end_to_end_example() {
    let mut report = Report::new("sample.txt".to_string(), 10, "Hi! hi? HI.".to_string());
    assert_eq!(report.text, "hi hi hi");
    assert_eq!(report.total_row_characters, 11);
    assert_eq!(report.total_words, 3);
    assert_eq!(report.total_letters, 9);
    report.generate();
    assert_eq!(report.word_counts.len(), 1);
    assert_eq!(report.letter_counts.len(), 2);

    let words = report.word_counts.ranked(report.top);
    assert_eq!(words.len(), 1);
    assert_eq!(words[0].value, "hi");
    assert_eq!(words[0].count, 3);
    let percentage = (words[0].count as f32 / report.total_words as f32) * 100.0;
    assert_eq!(percentage, 100.0);

    let letters = report.letter_counts.ranked(report.top);
    assert_eq!(letters.len(), 2);
    let mut values: Vec<String> = letters.iter().map(|e| e.value.clone()).collect();
    values.sort();
    assert_eq!(values, vec!["h".to_string(), "i".to_string()]);
    assert_eq!(letters[0].count, 3);
    assert_eq!(letters[1].count, 3);
    let letter_percentage = (letters[0].count as f32 / report.total_letters as f32) * 100.0;
    assert!((letter_percentage - 33.333332).abs() < 0.001);
}

#[test]
fn empty_file_yields_empty_report() {
    let mut report = Report::new("empty.txt".to_string(), 10, "".to_string());
    assert_eq!(report.text, "");
    assert_eq!(report.total_row_characters, 0);
    // Splitting empty text on a space gives one empty segment, and the
    // letter total counts one more segment than there are characters.
    assert_eq!(report.total_words, 1);
    assert_eq!(report.total_letters, 1);
    report.generate();
    assert_eq!(report.word_counts.len(), 0);
    assert_eq!(report.letter_counts.len(), 0);
    assert_eq!(report.word_counts.ranked(report.top).len(), 0);
    assert_eq!(report.letter_counts.ranked(report.top).len(), 0);
}

#[test]
fn ranking_is_sorted_by_count_descending() {
    let mut report = Report::new("t.txt".to_string(), 0, "b b b a a c".to_string());
    report.generate();
    let words = report.word_counts.ranked(0);
    assert_eq!(words.len(), 3);
    for pair in words.windows(2) {
        assert!(pair[0].count >= pair[1].count);
    }
    assert_eq!(words[0].value, "b");
    assert_eq!(words[0].count, 3);
    assert_eq!(words[1].value, "a");
    assert_eq!(words[1].count, 2);
    assert_eq!(words[2].value, "c");
    assert_eq!(words[2].count, 1);
}

#[test]
fn top_zero_keeps_all_and_top_n_truncates() {
    let mut report = Report::new("t.txt".to_string(), 0, "b b b a a c".to_string());
    report.generate();
    assert_eq!(report.word_counts.ranked(0).len(), 3);
    assert_eq!(report.word_counts.ranked(2).len(), 2);
    assert_eq!(report.word_counts.ranked(10).len(), 3);
    let top_two = report.word_counts.ranked(2);
    assert_eq!(top_two[0].value, "b");
    assert_eq!(top_two[1].value, "a");
}

#[test]
fn counts_sum_to_nonempty_token_count() {
    // "x y  x" splits into four segments, one of them empty: the naive
    // segment count is four, while only three words are aggregated.
    let mut report = Report::new("t.txt".to_string(), 0, "x y  x".to_string());
    report.generate();
    assert_eq!(report.total_words, 4);
    let words = report.word_counts.ranked(0);
    let sum: usize = words.iter().map(|e| e.count).sum();
    assert_eq!(sum, 3);
}

#[test]
fn letters_counted_per_word_character() {
    let mut report = Report::new("t.txt".to_string(), 0, "ab ba".to_string());
    report.generate();
    assert_eq!(report.total_letters, 6);
    assert_eq!(report.letter_counts.len(), 2);
    let letters = report.letter_counts.ranked(0);
    assert_eq!(letters.len(), 2);
    assert_eq!(letters[0].count, 2);
    assert_eq!(letters[1].count, 2);
}

#[test]
fn digits_and_punctuation_never_counted() {
    let mut report = Report::new("t.txt".to_string(), 0, "a1! a2? b3.".to_string());
    report.generate();
    assert_eq!(report.text, "a a b");
    let words = report.word_counts.ranked(0);
    assert_eq!(words.len(), 2);
    assert_eq!(words[0].value, "a");
    assert_eq!(words[0].count, 2);
    assert_eq!(words[1].value, "b");
    assert_eq!(words[1].count, 1);
}
