use deslop::diff::{diff_text_len, diff_words, words, ChangeKind};

fn spans(v: &[(ChangeKind, &str)]) -> Vec<(ChangeKind, String)> {
    v.iter().map(|(k, s)| (*k, s.to_string())).collect()
}

#[test]
fn words_match_split_whitespace() {
    for text in ["", "  ", "a", " a  b\tc\n", "é\u{a0}ü x", "a\u{2028}b"] {
        let std_words: Vec<String> = text.split_whitespace().map(String::from).collect();
        assert_eq!(words(text), std_words, "{:?}", text);
    }
}

#[test]
fn diff_marks_replaced_word() {
    let d = diff_words("the quick fox", "the slow fox");
    assert_eq!(
        d,
        spans(&[
            (ChangeKind::Equal, "the "),
            (ChangeKind::Delete, "quick "),
            (ChangeKind::Insert, "slow "),
            (ChangeKind::Equal, "fox "),
        ])
    );
}

#[test]
fn diff_normalises_whitespace() {
    let d = diff_words("a\n  b", "a b");
    assert_eq!(d, spans(&[(ChangeKind::Equal, "a "), (ChangeKind::Equal, "b ")]));
}

#[test]
fn empty_draft_deletes_every_word() {
    let d = diff_words("one two", "   ");
    assert_eq!(d, spans(&[(ChangeKind::Delete, "one "), (ChangeKind::Delete, "two ")]));
}

#[test]
fn empty_original_inserts_every_word() {
    let d = diff_words("", "new words");
    assert_eq!(d, spans(&[(ChangeKind::Insert, "new "), (ChangeKind::Insert, "words ")]));
}

#[test]
fn both_sides_recoverable() {
    let old = "a b c d e f";
    let new = "a x c e f g";
    let d = diff_words(old, new);
    let old_side: Vec<String> =
        d.iter().filter(|(k, _)| *k != ChangeKind::Insert).map(|(_, w)| w.trim_end().to_string()).collect();
    let new_side: Vec<String> =
        d.iter().filter(|(k, _)| *k != ChangeKind::Delete).map(|(_, w)| w.trim_end().to_string()).collect();
    assert_eq!(old_side, words(old));
    assert_eq!(new_side, words(new));
}

#[test]
fn diff_length_counts_characters() {
    let d = diff_words("héllo world", "héllo");
    assert_eq!(diff_text_len(&d), Some(6 + 6));
    assert_eq!(diff_text_len(&Vec::new()), Some(0));
}

#[test]
fn identical_word_lists_are_all_equal() {
    let long: String = (0..150).map(|i| format!("w{} ", i % 7)).collect();
    for (a, b) in [("x y x", "x  y\nx"), (long.as_str(), long.as_str()), ("", "")] {
        assert!(diff_words(a, b).iter().all(|(k, _)| *k == ChangeKind::Equal), "{:?}", a);
    }
    assert_eq!(diff_words(&long, &long).len(), 150);
}
