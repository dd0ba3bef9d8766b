use thai_wbk::segment::segment_thai_text;
use thai_wbk::trie::Trie;

// Concatenating the tokens reproduces the input exactly, including
// when a fallback token absorbs a combining mark.
#[test]
fn round_trip_with_combining_mark() {
    let mut trie = Trie::new();
    trie.insert("ไป");
    let text = "ก้ไป"; // 'ก' is unmatched and followed by mark U+0E49
    let result = segment_thai_text(text, &trie);
    assert_eq!(result, vec!["ก้".to_string(), "ไป".to_string()]);
    assert_eq!(result.concat(), text);
}

#[test]
fn round_trip_mixed_content() {
    let mut trie = Trie::new();
    trie.insert("คุณ");
    trie.insert("ที่ไหน");
    let text = "x1คุณ-ที่ไหนก้า";
    let result = segment_thai_text(text, &trie);
    assert_eq!(result.concat(), text);
}

// Inserting the same word twice leaves the matching behaviour
// unchanged.
#[test]
fn insert_is_idempotent() {
    let mut once = Trie::new();
    once.insert("สวัสดี");
    once.insert("ครับ");
    let mut twice = Trie::new();
    twice.insert("สวัสดี");
    twice.insert("ครับ");
    twice.insert("สวัสดี");
    for text in ["สวัสดีครับ", "สวัสดี", "ครับสวัสดี", "abc", ""] {
        assert_eq!(segment_thai_text(text, &once), segment_thai_text(text, &twice));
    }
}

// Inserting the empty string is ignored: it must not create an empty
// token or change any match.
#[test]
fn insert_empty_word_is_ignored() {
    let mut trie = Trie::new();
    trie.insert("");
    trie.insert("ไป");
    let result = segment_thai_text("ไปx", &trie);
    assert_eq!(result, vec!["ไป".to_string(), "x".to_string()]);
}

// The walk records every dictionary word that is a prefix, from
// shortest to longest.
#[test]
fn search_returns_all_matches_shortest_first() {
    let mut trie = Trie::new();
    trie.insert("สวัสดีครับ");
    trie.insert("สวัสดี");
    let matches = trie.search_longest_prefix("สวัสดีครับผม").unwrap();
    assert_eq!(matches, vec!["สวัสดี".to_string(), "สวัสดีครับ".to_string()]);
}

#[test]
fn search_without_match_returns_none() {
    let mut trie = Trie::new();
    trie.insert("สวัสดี");
    assert!(trie.search_longest_prefix("ครับ").is_none());
    assert!(trie.search_longest_prefix("").is_none());
}

// The shortest matching prefix wins: a word at the current position
// pre-empts the combining-mark fallback, so the mark that follows is
// emitted on its own.
#[test]
fn matched_base_character_leaves_mark_alone() {
    let mut trie = Trie::new();
    trie.insert("ก");
    let result = segment_thai_text("ก้", &trie);
    assert_eq!(result, vec!["ก".to_string(), "้".to_string()]);
}

// A combining mark with no base character before it becomes a token of
// its own; merging only looks one character ahead.
#[test]
fn leading_mark_is_its_own_token() {
    let trie = Trie::new();
    let result = segment_thai_text("้a", &trie);
    assert_eq!(result, vec!["้".to_string(), "a".to_string()]);
}

// Only one mark is absorbed: a second consecutive mark starts a new
// fallback token.
#[test]
fn only_one_mark_is_absorbed() {
    let trie = Trie::new();
    let result = segment_thai_text("ก้้", &trie);
    assert_eq!(result, vec!["ก้".to_string(), "้".to_string()]);
}

// All five marks of the fixed set are merged into a fallback token.
#[test]
fn every_mark_of_the_set_is_merged() {
    let trie = Trie::new();
    for mark in ['\u{0e47}', '\u{0e48}', '\u{0e49}', '\u{0e4a}', '\u{0e4b}'] {
        let text = format!("ข{}", mark);
        let result = segment_thai_text(&text, &trie);
        assert_eq!(result, vec![text.clone()]);
    }
}

#[test]
fn empty_input_yields_empty_list() {
    let trie = Trie::new();
    let result = segment_thai_text("", &trie);
    assert!(result.is_empty());
}
