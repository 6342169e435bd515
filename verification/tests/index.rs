use pdf_join::index::{
    entry_line, lowered, page_matches, page_selected, prepare_words, Index, IndexError,
};
use pdf_join::words::WordSet;

fn pair(key: &str, word: &str) -> (String, String) {
    (key.to_string(), word.to_string())
}

fn list(words: &[&str]) -> WordSet {
    let mut set = WordSet::new();
    for word in words {
        set.insert(word.to_string());
    }
    set
}

fn found(entries: &[(&str, u32)]) -> Vec<(String, u32)> {
    entries.iter().map(|(word, page)| (word.to_string(), *page)).collect()
}

fn keys(index: &Index) -> Vec<String> {
    (0..index.len()).map(|i| index.key(i).clone()).collect()
}

#[test]
fn index_keeps_its_keys_in_order() {
    let mut index = Index::new();
    assert_eq!(index.len(), 0);
    index.add("pear".to_string(), "Pear".to_string(), 3);
    index.add("apple".to_string(), "Apple".to_string(), 1);
    index.add("zebra".to_string(), "zebra".to_string(), 2);
    index.add("pea".to_string(), "pea".to_string(), 2);
    index.add("Pear".to_string(), "Pear".to_string(), 9);
    index.add("\u{e9}t\u{e9}".to_string(), "\u{c9}t\u{e9}".to_string(), 4);
    assert_eq!(keys(&index), vec!["Pear", "apple", "pea", "pear", "zebra", "\u{e9}t\u{e9}"]);
}

#[test]
fn index_gathers_the_findings_of_a_key() {
    let mut index = Index::new();
    index.add("pear".to_string(), "Pear".to_string(), 3);
    index.add("apple".to_string(), "Apple".to_string(), 1);
    index.add("pear".to_string(), "pear".to_string(), 1);
    index.add("pear".to_string(), "Pear".to_string(), 3);
    assert_eq!(keys(&index), vec!["apple", "pear"]);
    assert_eq!(index.occurrences(0), &found(&[("Apple", 1)]));
    assert_eq!(index.occurrences(1), &found(&[("Pear", 3), ("pear", 1), ("Pear", 3)]));
}

#[test]
fn index_takes_the_matches_of_a_page() {
    let mut index = Index::new();
    index.add_matches(vec![pair("b", "B"), pair("a", "a"), pair("b", "b")], 7);
    index.add_matches(Vec::new(), 8);
    index.add_matches(vec![pair("a", "A")], 9);
    assert_eq!(keys(&index), vec!["a", "b"]);
    assert_eq!(index.occurrences(0), &found(&[("a", 7), ("A", 9)]));
    assert_eq!(index.occurrences(1), &found(&[("B", 7), ("b", 7)]));
}

#[test]
fn entry_line_lists_words_once_and_pages_in_order() {
    let line = entry_line(&found(&[("Pear", 12), ("pear", 3), ("Pear", 3), ("PEAR", 100)]));
    assert_eq!(line, "Pear, pear, PEAR: 3, 12, 100");
}

#[test]
fn entry_line_of_one_finding() {
    assert_eq!(entry_line(&found(&[("a", 0)])), "a: 0");
}

#[test]
fn entry_line_of_nothing_is_a_colon() {
    assert_eq!(entry_line(&Vec::new()), ": ");
}

#[test]
fn page_selected_without_a_choice_takes_every_page() {
    assert!(page_selected(&None, 1));
    assert!(page_selected(&None, 4000000000));
}

#[test]
fn page_selected_takes_the_chosen_pages() {
    let chosen = Some(vec![4, 2, 4]);
    assert!(page_selected(&chosen, 2));
    assert!(page_selected(&chosen, 4));
    assert!(!page_selected(&chosen, 3));
    assert!(!page_selected(&Some(Vec::new()), 1));
}

#[test]
fn lowered_brings_each_word_to_lower_case_once() {
    let lower = lowered(&list(&["Graph", "TREE", "graph", "tree "]));
    assert_eq!(lower.len(), 3);
    assert_eq!(lower.get(0), "graph");
    assert_eq!(lower.get(1), "tree");
    assert_eq!(lower.get(2), "tree ");
}

#[test]
fn prepare_words_lowers_unless_the_whole_text_is_searched() {
    let lower = prepare_words(Some(list(&["Graph"])), false).unwrap();
    assert_eq!(lower.get(0), "graph");
    let kept = prepare_words(Some(list(&["Graph"])), true).unwrap();
    assert_eq!(kept.get(0), "Graph");
    assert!(prepare_words(None, false).is_none());
    assert!(prepare_words(None, true).is_none());
}

#[test]
fn page_matches_splits_the_text() {
    let words = Some(list(&["graph"]));
    assert_eq!(page_matches("A Graph.", false, false, &words), Ok(vec![pair("graph", "Graph")]));
    assert_eq!(
        page_matches("A Graph.", false, true, &None),
        Ok(vec![pair("a", "A"), pair("graph.", "Graph.")])
    );
}

#[test]
fn page_matches_searches_the_whole_text() {
    let words = Some(list(&["Graph Theory"]));
    assert_eq!(
        page_matches("On graph theory", true, false, &words),
        Ok(vec![pair("graph theory", "Graph Theory")])
    );
}

#[test]
fn page_matches_in_the_whole_text_needs_a_list() {
    assert_eq!(page_matches("text", true, false, &None), Err(IndexError::MissingWordList));
}
