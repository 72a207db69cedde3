use tmbedit::words::{normalize_apostrophes, same_text, CustomWordSet};

#[test]
fn same_text_compares_character_for_character() {
    assert!(same_text("", ""));
    assert!(same_text("don't", "don't"));
    assert!(!same_text("don't", "don’t"));
    assert!(!same_text("Word", "word"));
    assert!(!same_text("word", "words"));
    assert!(!same_text("words", "word"));
}

#[test]
fn normalize_replaces_the_typographic_apostrophe() {
    assert_eq!(normalize_apostrophes("don’t"), "don't");
    assert_eq!(normalize_apostrophes("y’all’s"), "y'all's");
}

#[test]
fn normalize_keeps_everything_else() {
    assert_eq!(normalize_apostrophes(""), "");
    assert_eq!(normalize_apostrophes("don't"), "don't");
    assert_eq!(normalize_apostrophes("naïve"), "naïve");
    assert_eq!(normalize_apostrophes("‘quoted’"), "‘quoted'");
    assert_eq!(normalize_apostrophes("a😀b"), "a😀b");
}

#[test]
fn normalize_agrees_with_std_replace() {
    for word in ["", "it’s", "’’", "plain", "l’été", "rock’n’roll"] {
        assert_eq!(normalize_apostrophes(word), word.replace("’", "'"));
    }
}

#[test]
fn normalize_twice_is_normalize_once() {
    let once = normalize_apostrophes("rock’n’roll");
    assert_eq!(normalize_apostrophes(&once), once);
}

#[test]
fn new_set_is_empty() {
    let set = CustomWordSet::new();
    assert_eq!(set.len(), 0);
    assert!(!set.contains("anything"));
    assert!(!set.contains(""));
}

#[test]
fn added_words_are_found() {
    let mut set = CustomWordSet::new();
    set.add("tmbedit".to_string());
    set.add("fyne".to_string());
    assert_eq!(set.len(), 2);
    assert!(set.contains("tmbedit"));
    assert!(set.contains("fyne"));
    assert!(!set.contains("Fyne"));
    assert!(!set.contains("fyn"));
}

#[test]
fn membership_does_not_normalize() {
    let set = CustomWordSet::from_words(vec!["don't".to_string()]);
    assert!(set.contains("don't"));
    assert!(!set.contains("don’t"));
    assert!(!set.contains("Don't"));
}

#[test]
fn a_word_added_twice_is_kept_twice() {
    let mut set = CustomWordSet::from_words(vec!["a".to_string()]);
    set.add("a".to_string());
    assert_eq!(set.len(), 2);
    assert!(set.contains("a"));
}
