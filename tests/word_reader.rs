use word_count::counter::count_words;
use word_count::word_reader::WordReader;

fn all_words(text: &str) -> Vec<String> {
    let mut reader = WordReader::new(text);
    let mut words = Vec::new();
    while let Some(w) = reader.next() {
        words.push(w);
    }
    words
}

#[test]
fn tokenizer_splits_on_whitespace_runs() {
    let mut reader = WordReader::new("  hello   world\n");
    assert_eq!(reader.next(), Some("hello".to_string()));
    assert_eq!(reader.next(), Some("world".to_string()));
    assert_eq!(reader.next(), None);
    assert_eq!(reader.next(), None);
}

#[test]
fn tokenizer_on_empty_input_yields_nothing() {
    let mut reader = WordReader::new("");
    assert_eq!(reader.next(), None);
    assert_eq!(reader.next(), None);
}

#[test]
fn tokenizer_on_blank_input_yields_nothing() {
    let mut reader = WordReader::new(" \t\n\r  \n");
    assert_eq!(reader.next(), None);
    assert_eq!(reader.next(), None);
}

#[test]
fn tokenizer_word_at_end_without_whitespace() {
    assert_eq!(all_words("one two"), vec!["one", "two"]);
    assert_eq!(all_words("single"), vec!["single"]);
}

#[test]
fn tokenizer_uses_unicode_whitespace() {
    assert_eq!(all_words("a\u{3000}b\u{a0}c"), vec!["a", "b", "c"]);
    assert_eq!(all_words("x,y.z"), vec!["x,y.z"]);
}

#[test]
fn tokenizer_keeps_non_ascii_words() {
    assert_eq!(all_words(" héllo  wörld "), vec!["héllo", "wörld"]);
}

#[test]
fn counts_words_in_sorted_order() {
    let tree = count_words(all_words("a b a a b c"));
    let entries: Vec<(String, usize)> =
        tree.each().into_iter().map(|(k, v)| (k.clone(), *v)).collect();
    assert_eq!(
        entries,
        vec![("a".to_string(), 3), ("b".to_string(), 2), ("c".to_string(), 1)]
    );
}

#[test]
fn counts_nothing_for_blank_text() {
    let tree = count_words(all_words("   \n "));
    assert!(tree.each().is_empty());
}

#[test]
fn counts_integer_keys() {
    let tree = count_words(vec![3u64, 1, 3, 3, 2, 1]);
    let entries: Vec<(u64, usize)> = tree.each().into_iter().map(|(k, v)| (*k, *v)).collect();
    assert_eq!(entries, vec![(1, 2), (2, 1), (3, 3)]);
}
