use pdf_join::words::{full_text, split_words, WordSet};

fn pair(key: &str, word: &str) -> (String, String) {
    (key.to_string(), word.to_string())
}

fn list(words: &[&str]) -> WordSet {
    let mut set = WordSet::new();
    for word in words {
        set.insert(word.to_string());
    }
    set
}

#[test]
fn split_words_trims_and_lowers() {
    let found = split_words(false, "Hello, (World)! a2b x2 --", &None);
    assert_eq!(found, vec![pair("hello", "Hello"), pair("world", "World"), pair("x", "x")]);
}

#[test]
fn split_words_without_filtering_keeps_pieces() {
    let found = split_words(true, " Hello,  x2\n", &None);
    assert_eq!(found, vec![pair("hello,", "Hello,"), pair("x2", "x2")]);
}

#[test]
fn split_words_splits_at_every_kind_of_whitespace() {
    let found = split_words(false, "one\ttwo\nthree\u{2003}four\r\nfive", &None);
    let words: Vec<&str> = found.iter().map(|entry| entry.1.as_str()).collect();
    assert_eq!(words, vec!["one", "two", "three", "four", "five"]);
}

#[test]
fn split_words_knows_letters_beyond_ascii() {
    let found = split_words(false, "\u{c9}t\u{e9}, \u{3a9}mega.", &None);
    assert_eq!(
        found,
        vec![pair("\u{e9}t\u{e9}", "\u{c9}t\u{e9}"), pair("\u{3c9}mega", "\u{3a9}mega")]
    );
}

#[test]
fn split_words_of_nothing_is_empty() {
    assert_eq!(split_words(false, "", &None), Vec::new());
    assert_eq!(split_words(true, " \n\t ", &None), Vec::new());
    assert_eq!(split_words(false, "12 -- ...", &None), Vec::new());
}

#[test]
fn split_words_keeps_listed_words_only() {
    let found = split_words(false, "Hello World", &Some(list(&["world"])));
    assert_eq!(found, vec![pair("world", "World")]);
    assert_eq!(split_words(false, "Hello World", &Some(WordSet::new())), Vec::new());
}

#[test]
fn split_words_looks_the_lower_case_up() {
    let found = split_words(false, "World world", &Some(list(&["World"])));
    assert_eq!(found, Vec::new());
}

#[test]
fn word_set_holds_each_word_once() {
    let mut set = WordSet::new();
    assert_eq!(set.len(), 0);
    assert!(set.insert("a".to_string()));
    assert!(set.insert("b".to_string()));
    assert!(!set.insert("a".to_string()));
    assert_eq!(set.len(), 2);
    assert!(set.contains(&"b".to_string()));
    assert!(!set.contains(&"c".to_string()));
    assert_eq!(set.get(0), "a");
    assert_eq!(set.get(1), "b");
}

#[test]
fn full_text_finds_listed_words() {
    let words = list(&[" Graph Theory ", "absent", "  ", "AN"]);
    let found = full_text("An introduction to GRAPH theory.", &words);
    assert_eq!(found, vec![pair("graph theory", " Graph Theory "), pair("an", "AN")]);
}

#[test]
fn full_text_finds_a_word_inside_another() {
    let found = full_text("Subgraphs", &list(&["graph"]));
    assert_eq!(found, vec![pair("graph", "graph")]);
}

#[test]
fn full_text_of_nothing_is_empty() {
    assert_eq!(full_text("", &list(&["a"])), Vec::new());
    assert_eq!(full_text("text", &WordSet::new()), Vec::new());
}
