use thai_wbk::segment::segment_thai_text;
use thai_wbk::trie::Trie;

// Helper function to create a Trie with Thai words
fn create_trie_with_thai_words() -> Trie {
    let mut trie = Trie::new();
    trie.insert("สวัสดี");
    trie.insert("ครับ");
    trie.insert("คุณ");
    trie.insert("ไป");
    trie.insert("ที่ไหน");
    trie.insert("สวัสดีครับ");
    trie
}

#[test]
fn test_segmentation_basic() {
    let trie = create_trie_with_thai_words();
    let text = "สวัสดีครับคุณไปที่ไหน";
    let expected = vec![
        "สวัสดี".to_string(),
        "ครับ".to_string(),
        "คุณ".to_string(),
        "ไป".to_string(),
        "ที่ไหน".to_string(),
    ];
    let result = segment_thai_text(text, &trie);
    assert_eq!(result, expected);
}

#[test]
fn test_segmentation_partial_match() {
    let trie = create_trie_with_thai_words();
    let text = "สวัสดีครับคุณไปไหน"; // 'ไปไหน' not in dictionary
    let expected = vec![
        "สวัสดี".to_string(),
        "ครับ".to_string(),
        "คุณ".to_string(),
        "ไป".to_string(),
        "ไ".to_string(),
        "ห".to_string(),
        "น".to_string(),
    ];
    let result = segment_thai_text(text, &trie);
    assert_eq!(result, expected);
}

#[test]
fn test_segmentation_empty_string() {
    let trie = create_trie_with_thai_words();
    let text = "";
    let expected: Vec<String> = vec![];
    let result = segment_thai_text(text, &trie);
    assert_eq!(result, expected);
}

#[test]
fn test_segmentation_no_matching_words() {
    let trie = create_trie_with_thai_words();
    let text = "abcdefg"; // No matching words in the dictionary
    let expected: Vec<String> = vec![
        "a".to_string(),
        "b".to_string(),
        "c".to_string(),
        "d".to_string(),
        "e".to_string(),
        "f".to_string(),
        "g".to_string(),
    ];
    let result = segment_thai_text(text, &trie);
    assert_eq!(result, expected);
}

#[test]
fn test_segmentation_mixed_content() {
    let trie = create_trie_with_thai_words();
    let text = "สวัสดีครับ123คุณไปที่ไหน"; // Mixed Thai and numeric content
    let expected = vec![
        "สวัสดี".to_string(),
        "ครับ".to_string(),
        "1".to_string(),
        "2".to_string(),
        "3".to_string(),
        "คุณ".to_string(),
        "ไป".to_string(),
        "ที่ไหน".to_string(),
    ];
    let result = segment_thai_text(text, &trie);
    assert_eq!(result, expected);
}
