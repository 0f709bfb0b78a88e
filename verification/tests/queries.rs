use kamilata::queries::{split_text, SearchQueries};

#[test]
fn words_kept_by_byte_length() {
    // "Lé" is two characters but three UTF-8 bytes, so it stays; "ab"
    // is two bytes and goes.
    let words = split_text("ab abc Lé");
    assert_eq!(words, vec!["abc".to_string(), "Lé".to_string()]);
}

#[test]
fn punctuation_separates_words() {
    let words = split_text("one,two;three!!four");
    assert_eq!(
        words,
        vec!["one".to_string(), "two".to_string(), "three".to_string(), "four".to_string()]
    );
}

#[test]
fn raw_text_requires_every_word() {
    let q = SearchQueries::from_raw_text("freedom fighter");
    assert_eq!(q.inner.len(), 1);
    assert_eq!(q.inner[0].0, vec!["freedom".to_string(), "fighter".to_string()]);
    assert_eq!(q.inner[0].1, 2);
}

#[test]
fn short_words_dropped() {
    let q = SearchQueries::from_raw_text("a of thé by");
    assert_eq!(q.inner[0].0, vec!["thé".to_string()]);
    assert_eq!(q.inner[0].1, 1);
}
